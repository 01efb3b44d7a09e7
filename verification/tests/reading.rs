use manifest_edit::model::Document;
use manifest_edit::model::Entry;
use manifest_edit::model::Value;
use manifest_edit::ParseError;

fn read(text: &str) -> Document {
    match Document::parse(text.as_bytes()) {
        Ok(document) => document,
        Err(error) => panic!("not read, line at offset {}: {text:?}", error.offset),
    }
}

fn refused(text: &str) -> ParseError {
    match Document::parse(text.as_bytes()) {
        Ok(_) => panic!("read: {text:?}"),
        Err(error) => error,
    }
}

fn round_trips(text: &str) {
    assert_eq!(String::from_utf8(read(text).to_bytes()).unwrap(), text);
}

#[test]
fn a_plain_manifest_round_trips() {
    round_trips(
        "[project]\nname = \"demo\"\nversion = \"0.1.0\"\ndependencies = [\"requests>=2,<3\", \"click\"]\n",
    );
}

#[test]
fn comments_and_blank_lines_round_trip() {
    round_trips(
        "# top\n\n   # indented\n[project] # the project\nname = \"demo\"   # its name\n\n\ndependencies = [ # opening\n    \"a\", # first\n    # alone\n    \"b\" # second\n] # closing\n# end",
    );
}

#[test]
fn the_empty_text_round_trips() {
    round_trips("");
    round_trips("\n");
    round_trips("\n\n\n");
    round_trips("   ");
}

#[test]
fn a_text_without_a_final_newline_round_trips() {
    round_trips("[project]\ndependencies = []");
    round_trips("a = 1");
}

#[test]
fn carriage_returns_round_trip() {
    round_trips("[project]\r\nname = \"demo\"\r\ndependencies = [\r\n  \"a\",\r\n  \"b\",\r\n]\r\n");
}

#[test]
fn every_kind_of_string_round_trips() {
    round_trips("a = \"basic \\\" \\\\ # not a comment\"\n");
    round_trips("a = 'literal \\ # not a comment'\n");
    round_trips("a = \"\"\"\nmany\nlines \\\n  \"quoted\" # not a comment\n\"\"\"\n");
    round_trips("a = '''\nmany\n'lines'\n[not.a.header]\n'''\n");
    round_trips("a = \"\"\"ends with quotes\"\"\"\"\"\n");
    round_trips("a = \"\"\n");
    round_trips("a = ''\n");
    round_trips("a = \"\"\"\"\"\"\n");
}

#[test]
fn plain_values_round_trip() {
    round_trips("a = 1\nb = -2.5e+3\nc = true\nd = 1979-05-27T07:32:00Z\ne = 0xDEAD_BEEF\nf = inf\n");
}

#[test]
fn nested_values_round_trip() {
    round_trips("a = [[1, 2], [\"x\", 'y'], [], [ [ ] ]]\n");
    round_trips("a = { b = 1, c = [1, 2, { d = \"e\" }], \"f g\" = {} }\n");
    round_trips("authors = [\n  { name = \"A\", email = \"a@example.com\" }, # first\n  { name = \"B\" },\n]\n");
}

#[test]
fn keys_of_every_kind_round_trip() {
    round_trips("a.b.c = 1\n\"quoted key\" = 2\n'literal' . bare . \"x\" = 3\n[ tool . \"x y\" ]\n[[ bin ]]\n[[a.b]]\n");
}

#[test]
fn the_entries_are_the_logical_lines() {
    let document = read("# c\n[project]\ndependencies = [\n  \"a\",\n]\n");
    assert_eq!(document.entries.len(), 4);
    assert!(matches!(&document.entries[0], Entry::Blank { text } if text == b"# c"));
    assert!(matches!(
        &document.entries[1],
        Entry::Header { before, name, after, repeated }
            if before == b"[" && name == b"project" && after == b"]" && !*repeated
    ));
    match &document.entries[2] {
        Entry::Pair { before, key, between, value: Value::Array(array), after } => {
            assert_eq!(before, b"");
            assert_eq!(key, b"dependencies");
            assert_eq!(between, b" = ");
            assert_eq!(after, b"");
            assert_eq!(array.head, b"\n");
            assert_eq!(array.items.len(), 1);
            assert_eq!(array.items[0].prefix, b"  ");
            assert_eq!(array.items[0].value, b"\"a\"");
            assert_eq!(array.items[0].suffix, b"");
            assert_eq!(array.items[0].tail, b"\n");
            assert!(array.trailing_comma);
            assert_eq!(array.trailing, b"");
        }
        _ => panic!("the third entry is no array"),
    }
    assert!(matches!(&document.entries[3], Entry::Blank { text } if text.is_empty()));
}

#[test]
fn the_rest_of_a_line_belongs_to_the_item_before_it() {
    let document = read("a = [ 1 , 2 # two\n ]");
    match &document.entries[0] {
        Entry::Pair { value: Value::Array(array), .. } => {
            assert_eq!(array.head, b"");
            assert_eq!(array.items.len(), 2);
            assert_eq!(array.items[0].prefix, b" ");
            assert_eq!(array.items[0].value, b"1");
            assert_eq!(array.items[0].suffix, b" ");
            assert_eq!(array.items[0].tail, b"");
            assert_eq!(array.items[1].prefix, b" ");
            assert_eq!(array.items[1].value, b"2");
            assert_eq!(array.items[1].suffix, b"");
            assert_eq!(array.items[1].tail, b" # two\n");
            assert!(!array.trailing_comma);
            assert_eq!(array.trailing, b" ");
        }
        _ => panic!("no array"),
    }
    let document = read("a = [ # the head\n  1 # not yet\n  ,  # one\n\n  2,# two\n  # alone\n]");
    match &document.entries[0] {
        Entry::Pair { value: Value::Array(array), .. } => {
            assert_eq!(array.head, b" # the head\n");
            assert_eq!(array.items.len(), 2);
            assert_eq!(array.items[0].prefix, b"  ");
            assert_eq!(array.items[0].suffix, b" # not yet\n  ");
            assert_eq!(array.items[0].tail, b"  # one\n");
            assert_eq!(array.items[1].prefix, b"\n  ");
            assert_eq!(array.items[1].suffix, b"");
            assert_eq!(array.items[1].tail, b"# two\n");
            assert!(array.trailing_comma);
            assert_eq!(array.trailing, b"  # alone\n");
        }
        _ => panic!("no array"),
    }
    let document = read("a = [1, 2]");
    match &document.entries[0] {
        Entry::Pair { value: Value::Array(array), .. } => {
            assert_eq!(array.head, b"");
            assert_eq!(array.items[0].tail, b"");
            assert_eq!(array.items[1].prefix, b" ");
            assert_eq!(array.items[1].tail, b"");
            assert_eq!(array.trailing, b"");
        }
        _ => panic!("no array"),
    }
}

#[test]
fn a_header_is_told_from_an_array_of_tables() {
    let document = read("[[project]]\n[ project ]\n");
    assert!(matches!(
        &document.entries[0],
        Entry::Header { name, repeated, .. } if name == b"project" && *repeated
    ));
    assert!(matches!(
        &document.entries[1],
        Entry::Header { before, name, after, repeated }
            if before == b"[ " && name == b"project" && after == b" ]" && !*repeated
    ));
}

#[test]
fn an_unterminated_array_is_refused() {
    assert_eq!(refused("[project]\ndependencies = [\"a\",\n").offset, 10);
    assert_eq!(refused("a = [1, 2").offset, 0);
}

#[test]
fn an_unterminated_string_is_refused() {
    assert_eq!(refused("a = \"open\nb = 1\n").offset, 0);
    assert_eq!(refused("x = 1\na = 'open\n").offset, 6);
    assert_eq!(refused("a = \"\"\"never closed\n\"\"\n").offset, 0);
    assert_eq!(refused("a = \"ends in a backslash\\").offset, 0);
}

#[test]
fn an_unterminated_header_is_refused() {
    assert_eq!(refused("[project\nname = \"x\"\n").offset, 0);
    assert_eq!(refused("\n\n[[bin]\n").offset, 2);
    assert_eq!(refused("[]\n").offset, 0);
    assert_eq!(refused("[a]]\n").offset, 0);
}

#[test]
fn invalid_syntax_is_refused() {
    assert_eq!(refused("just words\n").offset, 0);
    assert_eq!(refused("a = \n").offset, 0);
    assert_eq!(refused("= 1\n").offset, 0);
    assert_eq!(refused("a = 1 2\n").offset, 0);
    assert_eq!(refused("a = [1,,2]\n").offset, 0);
    assert_eq!(refused("a = [,]\n").offset, 0);
    assert_eq!(refused("a = {b}\n").offset, 0);
    assert_eq!(refused("a = 1\nb = ]\n").offset, 6);
    assert_eq!(refused("a. = 1\n").offset, 0);
    assert_eq!(refused("a = \"x\" \"y\"\n").offset, 0);
}

#[test]
fn values_nest_to_a_fixed_depth() {
    let deep = |levels: usize| format!("a = {}{}\n", "[".repeat(levels), "]".repeat(levels));
    round_trips(&deep(1));
    round_trips(&deep(64));
    assert_eq!(refused(&deep(65)).offset, 0);
    assert_eq!(refused(&format!("ok = 1\n{}", deep(200))).offset, 7);
}

const FULL: &str = r#"[build-system]
requires = ["hatchling>=1.18", "hatch-vcs"]
build-backend = "hatchling.build"

[project]
name = "demo-project"
dynamic = ["version"]
description = 'A "demo" project'
readme = "README.md"
requires-python = ">=3.8"
license = { file = "LICENSE" }
authors = [
    { name = "Ada", email = "ada@example.com" },
    { name = "Grace" }, # second author
]
keywords = []
classifiers = [
    "Development Status :: 4 - Beta",
    "Programming Language :: Python :: 3",
]
dependencies = [
    # the web
    "requests>=2,<3",
    "click",            # command line
    "tomli>=1.1.0 ; python_version < \"3.11\"",
    'importlib-metadata; python_version<"3.8"',
]

[project.optional-dependencies]
test = ["pytest>=7", "pytest-cov"]
docs = [
    "sphinx",
]

[project.urls]
Homepage = "https://example.com"
"Bug Tracker" = "https://example.com/issues"

[project.scripts]
demo = "demo.cli:main"

[tool.hatch.version]
source = "vcs"

[tool.black]
line-length = 100
extend-exclude = '''
/(
  | tests/data
)/
'''

[tool.pytest.ini_options]
addopts = """
    --strict-markers
    -ra
"""
testpaths = ["tests"]

[[tool.mypy.overrides]]
module = ["requests.*"]
ignore_missing_imports = true

[[tool.mypy.overrides]]
module = "click.*"
ignore_missing_imports = true
"#;

#[test]
fn a_manifest_with_many_sections_round_trips() {
    round_trips(FULL);
    round_trips(&FULL.replace('\n', "\r\n"));
    round_trips(FULL.trim_end());
}

#[test]
fn a_manifest_with_many_sections_loses_one_line_with_one_dependency() {
    let mut document = read(FULL);
    assert_eq!(
        document.dependency_values(),
        [
            &b"\"requests>=2,<3\""[..],
            &b"\"click\""[..],
            &b"\"tomli>=1.1.0 ; python_version < \\\"3.11\\\"\""[..],
            &b"'importlib-metadata; python_version<\"3.8\"'"[..],
        ]
    );
    let name = manifest_edit::PackageName::new(b"Click").ok().unwrap();
    assert_eq!(document.remove_dependency(&name).len(), 1);
    assert_eq!(
        String::from_utf8(document.to_bytes()).unwrap(),
        FULL.replace("    \"click\",            # command line\n", "")
    );
    let name = manifest_edit::PackageName::new(b"importlib_metadata").ok().unwrap();
    assert_eq!(document.remove_dependency(&name).len(), 1);
    let name = manifest_edit::PackageName::new(b"requests").ok().unwrap();
    assert_eq!(document.remove_dependency(&name).len(), 1);
    assert_eq!(
        String::from_utf8(document.to_bytes()).unwrap(),
        FULL.replace("    \"click\",            # command line\n", "")
            .replace("    # the web\n    \"requests>=2,<3\",\n", "")
            .replace("    'importlib-metadata; python_version<\"3.8\"',\n", "")
    );
    let again = read(&String::from_utf8(document.to_bytes()).unwrap());
    assert_eq!(
        again.dependency_values(),
        [&b"\"tomli>=1.1.0 ; python_version < \\\"3.11\\\"\""[..]]
    );
}
