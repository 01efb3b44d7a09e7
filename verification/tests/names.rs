use manifest_edit::name::InvalidName;
use manifest_edit::name::PackageName;

fn normal_form(text: &str) -> Option<String> {
    match PackageName::new(text.as_bytes()) {
        Ok(name) => Some(String::from_utf8(name.as_bytes().to_vec()).unwrap()),
        Err(_) => None,
    }
}

fn rejected(text: &[u8]) -> InvalidName {
    match PackageName::new(text) {
        Ok(_) => panic!("accepted: {text:?}"),
        Err(error) => error,
    }
}

#[test]
fn every_spelling_has_one_normal_form() {
    let spellings = [
        "friendly-bard",
        "Friendly-Bard",
        "FRIENDLY-BARD",
        "friendly.bard",
        "friendly_bard",
        "friendly--bard",
        "friendly-.bard",
        "FrIeNdLy-._.-bArD",
    ];
    for spelling in spellings {
        assert_eq!(normal_form(spelling).as_deref(), Some("friendly-bard"));
    }
}

#[test]
fn normal_forms_are_left_alone() {
    for text in ["friendly-bard", "1okay", "okay2", "a", "a-b-c", "x0"] {
        assert_eq!(normal_form(text).as_deref(), Some(text));
    }
}

#[test]
fn normalizing_twice_is_normalizing_once() {
    for text in ["My-Pkg", "a__b..c", "Z", "Django"] {
        let once = normal_form(text).unwrap();
        assert_eq!(normal_form(&once), Some(once.clone()));
    }
}

#[test]
fn the_empty_name_is_a_name() {
    assert_eq!(normal_form("").as_deref(), Some(""));
}

#[test]
fn ill_formed_names_are_rejected_with_their_text() {
    let failures = [
        " starts-with-space",
        "-starts-with-dash",
        "ends-with-dash-",
        "ends-with-space ",
        "includes!invalid-char",
        "space in middle",
        "alpha-α",
        ".",
        "_a",
        "a.",
    ];
    for text in failures {
        assert_eq!(rejected(text.as_bytes()).text, text.as_bytes());
    }
}

#[test]
fn bytes_that_are_not_text_are_rejected() {
    assert_eq!(rejected(&[0x61, 0xff, 0x62]).text, vec![0x61, 0xff, 0x62]);
    assert_eq!(rejected(&[0xc3]).text, vec![0xc3]);
}

#[test]
fn matching_ignores_case_and_separators() {
    let name = PackageName::new(b"My-Pkg").ok().unwrap();
    assert_eq!(name.as_bytes(), b"my-pkg");
    assert!(name.matches(b"my_pkg"));
    assert!(name.matches(b"MY.PKG"));
    assert!(name.matches(b"my-_.pkg"));
    assert!(name.matches(b"my-pkg"));
    assert!(!name.matches(b"mypkg"));
    assert!(!name.matches(b"my-pkg2"));
    assert!(!name.matches(b"my-pkg-"));
    assert!(!name.matches(b"my pkg"));
}

#[test]
fn names_are_the_same_when_their_normal_forms_are() {
    let a = PackageName::new(b"Flask_SQLAlchemy").ok().unwrap();
    let b = PackageName::new(b"flask-sqlalchemy").ok().unwrap();
    let c = PackageName::new(b"flask").ok().unwrap();
    assert!(a.same(&b));
    assert!(b.same(&a));
    assert!(!a.same(&c));
    let copy = a.duplicate();
    assert!(copy.same(&a));
    assert_eq!(copy.as_bytes(), b"flask-sqlalchemy");
}
