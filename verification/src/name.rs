//! Package names and the rule by which two spellings name the same package.
//!
//! A name is made of ASCII letters, digits and the separators `-`, `_` and `.`;
//! it neither starts nor ends with a separator. Its normal form is lower case,
//! with every run of separators written as a single `-`. Two spellings name the
//! same package when their normal forms are equal.

use crate::bytes::copy_bytes;
use crate::bytes::same_bytes;
use std::str::FromStr;
use vstd::prelude::*;

verus! {

/// The separator of a normal form.
pub const DASH: u8 = 0x2d;

pub const UNDERSCORE: u8 = 0x5f;

pub const DOT: u8 = 0x2e;

/// `-`, `_` or `.`.
pub open spec fn is_separator(b: u8) -> bool {
    b == DASH || b == UNDERSCORE || b == DOT
}

/// An ASCII capital letter.
pub open spec fn is_upper(b: u8) -> bool {
    0x41 <= b <= 0x5a
}

/// An ASCII small letter.
pub open spec fn is_lower(b: u8) -> bool {
    0x61 <= b <= 0x7a
}

/// An ASCII digit.
pub open spec fn is_digit(b: u8) -> bool {
    0x30 <= b <= 0x39
}

/// An ASCII letter or digit.
pub open spec fn is_alnum(b: u8) -> bool {
    is_upper(b) || is_lower(b) || is_digit(b)
}

/// A byte that may occur in a name.
pub open spec fn is_name_byte(b: u8) -> bool {
    is_alnum(b) || is_separator(b)
}

/// The lower-case form of an ASCII letter; any other byte unchanged.
pub open spec fn to_lower(b: u8) -> u8 {
    if is_upper(b) {
        (b + 0x20) as u8
    } else {
        b
    }
}

/// Whether `s` is a well-formed name. The empty name is well formed.
pub open spec fn valid_name(s: Seq<u8>) -> bool {
    &&& forall|i: int| 0 <= i < s.len() ==> is_name_byte(#[trigger] s[i])
    &&& s.len() > 0 ==> !is_separator(s[0]) && !is_separator(s.last())
}

/// The normal form of `s`: letters in lower case, each run of separators as one `-`.
pub open spec fn normalized(s: Seq<u8>) -> Seq<u8>
    decreases s.len(),
{
    if s.len() == 0 {
        s
    } else if !is_separator(s.last()) {
        normalized(s.drop_last()).push(to_lower(s.last()))
    } else if s.len() >= 2 && is_separator(s[s.len() - 2]) {
        normalized(s.drop_last())
    } else {
        normalized(s.drop_last()).push(DASH)
    }
}

/// Whether `s` is a name in normal form.
pub open spec fn is_normal(s: Seq<u8>) -> bool {
    &&& forall|i: int| 0 <= i < s.len() ==> is_lower(#[trigger] s[i]) || is_digit(s[i]) || s[i] == DASH
    &&& forall|i: int| 0 <= i < s.len() - 1 ==> !(#[trigger] s[i] == DASH && s[i + 1] == DASH)
    &&& s.len() > 0 ==> s[0] != DASH && s.last() != DASH
}

/// The normal form of `s` where it is a well-formed name.
pub open spec fn name_of(s: Seq<u8>) -> Option<Seq<u8>> {
    if valid_name(s) {
        Some(normalized(s))
    } else {
        None
    }
}

/// Validates and normalizes a name with `pep508_rs::PackageName::from_str`.
///
/// The contract restates that function: it accepts exactly the well-formed
/// names, and its result is the normal form. Bytes that are not UTF-8 are not a
/// name.
#[verifier::external_body]
fn normalize_name(raw: &[u8]) -> (r: Option<Vec<u8>>)
    ensures
        match r {
            Some(v) => name_of(raw@) == Some(v@),
            None => name_of(raw@) is None,
        },
{
    let text = std::str::from_utf8(raw).ok()?;
    let name = pep508_rs::PackageName::from_str(text).ok()?;
    Some(name.to_string().into_bytes())
}

/// A rejected name, with the text as it was given.
pub struct InvalidName {
    pub text: Vec<u8>,
}

/// A package name in normal form.
pub struct PackageName {
    text: Vec<u8>,
}

impl View for PackageName {
    type V = Seq<u8>;

    closed spec fn view(&self) -> Seq<u8> {
        self.text@
    }
}

impl PackageName {
    #[verifier::type_invariant]
    spec fn in_normal_form(&self) -> bool {
        is_normal(self.text@)
    }

    /// The name that `raw` spells, or the rejected text if it spells none.
    pub fn new(raw: &[u8]) -> (r: Result<PackageName, InvalidName>)
        ensures
            match r {
                Ok(name) => valid_name(raw@) && name@ == normalized(raw@),
                Err(e) => !valid_name(raw@) && e.text@ == raw@,
            },
    {
        match normalize_name(raw) {
            Some(text) => {
                proof {
                    lemma_normalized_is_normal(raw@);
                }
                Ok(PackageName { text })
            },
            None => Err(InvalidName { text: copy_bytes(raw) }),
        }
    }

    /// The normal form, as bytes.
    pub fn as_bytes(&self) -> (r: &[u8])
        ensures
            r@ == self@,
            is_normal(self@),
    {
        proof {
            use_type_invariant(self);
        }
        self.text.as_slice()
    }

    /// Whether `raw` is a spelling of this name.
    pub fn matches(&self, raw: &[u8]) -> (r: bool)
        ensures
            r == (valid_name(raw@) && normalized(raw@) == self@),
    {
        match normalize_name(raw) {
            Some(text) => same_bytes(text.as_slice(), self.text.as_slice()),
            None => false,
        }
    }

    /// Whether two names are the same.
    pub fn same(&self, other: &PackageName) -> (r: bool)
        ensures
            r == (self@ == other@),
    {
        same_bytes(self.text.as_slice(), other.text.as_slice())
    }

    /// A copy of this name.
    pub fn duplicate(&self) -> (r: PackageName)
        ensures
            r@ == self@,
    {
        proof {
            use_type_invariant(self);
        }
        PackageName { text: copy_bytes(self.text.as_slice()) }
    }
}

/// The normal form of a well-formed name is in normal form.
pub proof fn lemma_normalized_is_normal(s: Seq<u8>)
    requires
        valid_name(s),
    ensures
        is_normal(normalized(s)),
{
    lemma_normalized_prefix(s, s.len() as int);
    assert(s.subrange(0, s.len() as int) == s);
}

/// What holds of the normal form of each prefix of a well-formed name.
proof fn lemma_normalized_prefix(s: Seq<u8>, n: int)
    requires
        valid_name(s),
        0 <= n <= s.len(),
    ensures
        ({
            let p = normalized(s.subrange(0, n));
            &&& forall|i: int| 0 <= i < p.len() ==> is_lower(#[trigger] p[i]) || is_digit(p[i]) || p[i] == DASH
            &&& forall|i: int| 0 <= i < p.len() - 1 ==> !(#[trigger] p[i] == DASH && p[i + 1] == DASH)
            &&& n > 0 ==> p.len() > 0 && p[0] != DASH
            &&& n > 0 ==> (p.last() == DASH <==> is_separator(s[n - 1]))
            &&& n == 0 ==> p.len() == 0
        }),
    decreases n,
{
    if n > 0 {
        lemma_normalized_prefix(s, n - 1);
        let t = s.subrange(0, n);
        assert(t.drop_last() == s.subrange(0, n - 1));
        assert(t.last() == s[n - 1]);
        assert(is_name_byte(s[n - 1]));
        if n >= 2 {
            assert(t[t.len() - 2] == s[n - 2]);
            assert(is_name_byte(s[n - 2]));
        }
    }
}


/// Whether two bytes stand for the same letter of a name: both are
/// separators, or they are equal up to case.
pub open spec fn same_letter(x: u8, y: u8) -> bool {
    (is_separator(x) && is_separator(y)) || to_lower(x) == to_lower(y)
}

/// The normal form of a text in normal form, cut anywhere, is that text.
proof fn lemma_normal_prefix_is_fixed(s: Seq<u8>, n: int)
    requires
        is_normal(s),
        0 <= n <= s.len(),
    ensures
        normalized(s.subrange(0, n)) == s.subrange(0, n),
    decreases n,
{
    let t = s.subrange(0, n);
    if n > 0 {
        lemma_normal_prefix_is_fixed(s, n - 1);
        assert(t.drop_last() == s.subrange(0, n - 1));
        assert(t.last() == s[n - 1]);
        if n >= 2 {
            assert(t[t.len() - 2] == s[n - 2]);
            assert(!(s[n - 2] == DASH && s[n - 2 + 1] == DASH));
        }
        assert(s.subrange(0, n - 1).push(s[n - 1]) == t);
    }
}

/// Normal forms are names, and normalizing one changes nothing.
pub proof fn lemma_normal_is_fixed(s: Seq<u8>)
    requires
        is_normal(s),
    ensures
        valid_name(s),
        normalized(s) == s,
{
    lemma_normal_prefix_is_fixed(s, s.len() as int);
    assert(s.subrange(0, s.len() as int) == s);
}

/// Normalizing is idempotent: the normal form of a name is a name, and its
/// own normal form.
pub proof fn lemma_normalized_idempotent(s: Seq<u8>)
    requires
        valid_name(s),
    ensures
        valid_name(normalized(s)),
        normalized(normalized(s)) == normalized(s),
{
    lemma_normalized_is_normal(s);
    lemma_normal_is_fixed(normalized(s));
}

/// Texts that agree letter for letter have the same normal form, cut anywhere.
proof fn lemma_same_letters_prefix(a: Seq<u8>, b: Seq<u8>, n: int)
    requires
        a.len() == b.len(),
        0 <= n <= a.len(),
        forall|i: int| 0 <= i < a.len() ==> same_letter(#[trigger] a[i], b[i]),
    ensures
        normalized(a.subrange(0, n)) == normalized(b.subrange(0, n)),
    decreases n,
{
    let s = a.subrange(0, n);
    let t = b.subrange(0, n);
    if n > 0 {
        lemma_same_letters_prefix(a, b, n - 1);
        assert(s.drop_last() == a.subrange(0, n - 1));
        assert(t.drop_last() == b.subrange(0, n - 1));
        assert(same_letter(a[n - 1], b[n - 1]));
        assert(s.last() == a[n - 1] && t.last() == b[n - 1]);
        if n >= 2 {
            assert(same_letter(a[n - 2], b[n - 2]));
            assert(s[s.len() - 2] == a[n - 2] && t[t.len() - 2] == b[n - 2]);
        }
    } else {
        assert(s =~= t);
    }
}

/// Matching ignores case and the choice of separator: two texts of one
/// length that agree letter for letter, where any separator agrees with any
/// other and a capital with its small letter, are names together, and then
/// name the same package.
pub proof fn lemma_case_and_separator_insensitive(a: Seq<u8>, b: Seq<u8>)
    requires
        a.len() == b.len(),
        forall|i: int| 0 <= i < a.len() ==> same_letter(#[trigger] a[i], b[i]),
    ensures
        valid_name(a) == valid_name(b),
        normalized(a) == normalized(b),
        name_of(a) == name_of(b),
{
    lemma_same_letters_prefix(a, b, a.len() as int);
    assert(a.subrange(0, a.len() as int) == a);
    assert(b.subrange(0, b.len() as int) == b);
    assert forall|i: int| 0 <= i < a.len() implies (is_name_byte(#[trigger] a[i]) == is_name_byte(
        b[i],
    ) && is_separator(a[i]) == is_separator(b[i])) by {
        assert(same_letter(a[i], b[i]));
    }
    if a.len() > 0 {
        assert(is_separator(a[0]) == is_separator(b[0]));
        assert(is_separator(a.last()) == is_separator(b.last()));
    }
    if valid_name(a) {
        assert forall|i: int| 0 <= i < b.len() implies is_name_byte(#[trigger] b[i]) by {
            assert(is_name_byte(a[i]));
        }
    }
    if valid_name(b) {
        assert forall|i: int| 0 <= i < a.len() implies is_name_byte(#[trigger] a[i]) by {
            assert(is_name_byte(b[i]));
        }
    }
}

/// Matching ignores how long a run of separators is: a separator written
/// after a separator changes neither whether a text is a name nor which
/// package it names.
#[verifier::rlimit(40)]
pub proof fn lemma_separator_run_insensitive(before: Seq<u8>, first: u8, second: u8, after: Seq<u8>)
    requires
        is_separator(first),
        is_separator(second),
    ensures
        normalized(before.push(first).push(second) + after) == normalized(
            before.push(first) + after,
        ),
        valid_name(before.push(first).push(second) + after) == valid_name(
            before.push(first) + after,
        ),
    decreases after.len(),
{
    let long = before.push(first).push(second) + after;
    let short = before.push(first) + after;
    if after.len() == 0 {
        assert(long =~= before.push(first).push(second));
        assert(short =~= before.push(first));
        assert(long.drop_last() =~= short);
        assert(long.last() == second && short.last() == first);
    } else {
        let rest = after.drop_last();
        lemma_separator_run_insensitive(before, first, second, rest);
        assert(long.drop_last() =~= before.push(first).push(second) + rest);
        assert(short.drop_last() =~= before.push(first) + rest);
        assert(long.last() == after.last() && short.last() == after.last());
        assert(is_separator(long[long.len() - 2]) == is_separator(short[short.len() - 2])) by {
            if rest.len() > 0 {
                assert(long[long.len() - 2] == rest.last());
                assert(short[short.len() - 2] == rest.last());
            } else {
                assert(long[long.len() - 2] == second);
                assert(short[short.len() - 2] == first);
            }
        }
        assert(long[0] == short[0]) by {
            if before.len() > 0 {
                assert(long[0] == before[0] && short[0] == before[0]);
            }
        }
        assert forall|i: int| 0 <= i < long.len() implies #[trigger] long[i] == (if i
            <= before.len() {
            short[i]
        } else if i == before.len() + 1 {
            second
        } else {
            short[i - 1]
        }) by {}
        if valid_name(long) {
            assert forall|i: int| 0 <= i < short.len() implies is_name_byte(#[trigger] short[i]) by {
                if i <= before.len() {
                    assert(is_name_byte(long[i]));
                } else {
                    assert(is_name_byte(long[i + 1]));
                }
            }
        }
        if valid_name(short) {
            assert forall|i: int| 0 <= i < long.len() implies is_name_byte(#[trigger] long[i]) by {
                if i <= before.len() {
                    assert(is_name_byte(short[i]));
                } else if i > before.len() + 1 {
                    assert(is_name_byte(short[i - 1]));
                }
            }
        }
    }
}

} // verus!
