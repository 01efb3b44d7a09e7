use manifest_edit::edit_manifest;
use manifest_edit::model::Document;
use manifest_edit::requirement::entry_names;
use manifest_edit::EditError;
use manifest_edit::PackageName;

fn name(text: &str) -> PackageName {
    match PackageName::new(text.as_bytes()) {
        Ok(name) => name,
        Err(_) => panic!("not a name: {text}"),
    }
}

fn read(text: &str) -> Document {
    match Document::parse(text.as_bytes()) {
        Ok(document) => document,
        Err(error) => panic!("not read, line at offset {}", error.offset),
    }
}

/// The text without the package, and the values of the items that left.
fn remove(text: &str, package: &str) -> (String, Vec<String>) {
    let mut document = read(text);
    let removed = document.remove_dependency(&name(package));
    let values = removed.iter().map(|item| String::from_utf8(item.value.clone()).unwrap()).collect();
    (String::from_utf8(document.to_bytes()).unwrap(), values)
}

fn edit(text: &str, packages: &[&str]) -> Result<String, EditError> {
    let names: Vec<PackageName> = packages.iter().map(|package| name(package)).collect();
    edit_manifest(text.as_bytes(), &names).map(|out| String::from_utf8(out).unwrap())
}

#[test]
fn the_last_item_leaves_with_the_comma_before_it() {
    let (text, removed) = remove("[project]\ndependencies = [\"requests>=2,<3\", \"click\"]\n", "click");
    assert_eq!(text, "[project]\ndependencies = [\"requests>=2,<3\"]\n");
    assert_eq!(removed, ["\"click\""]);
}

#[test]
fn the_first_item_leaves_with_the_comma_after_it() {
    let (text, removed) =
        remove("[project]\ndependencies = [\"requests>=2,<3\", \"click\"]\n", "requests");
    assert_eq!(text, "[project]\ndependencies = [ \"click\"]\n");
    assert_eq!(removed, ["\"requests>=2,<3\""]);
}

#[test]
fn an_item_in_the_middle_leaves_its_neighbours_as_they_were() {
    let before = "[project]\ndependencies = [\n    \"a>=1\",   # first\n    \"b\", # second\n    \"c\", # third\n]\n";
    let (text, removed) = remove(before, "b");
    assert_eq!(
        text,
        "[project]\ndependencies = [\n    \"a>=1\",   # first\n    \"c\", # third\n]\n"
    );
    assert_eq!(removed, ["\"b\""]);
}

#[test]
fn the_trailing_comma_stays_while_an_item_is_left() {
    let before = "[project]\ndependencies = [\n    \"a\",\n    \"b\",\n]\n";
    assert_eq!(remove(before, "b").0, "[project]\ndependencies = [\n    \"a\",\n]\n");
    assert_eq!(remove(before, "a").0, "[project]\ndependencies = [\n    \"b\",\n]\n");
}

#[test]
fn the_last_line_keeps_its_newline_without_a_trailing_comma() {
    let before = "[project]\ndependencies = [\n    \"a\",\n    \"b\"\n]\n";
    assert_eq!(remove(before, "b").0, "[project]\ndependencies = [\n    \"a\"\n]\n");
}

#[test]
fn an_array_that_loses_every_item_loses_its_trailing_comma() {
    let (text, removed) = remove("[project]\ndependencies = [\n    \"a\", # only\n]\n", "a");
    assert_eq!(text, "[project]\ndependencies = [\n]\n");
    assert_eq!(removed, ["\"a\""]);
    assert_eq!(remove("[project]\ndependencies = [\"a\"]", "a").0, "[project]\ndependencies = []");
}

#[test]
fn an_item_takes_its_comments_along_and_no_others() {
    let before = "[project]\ndependencies = [ # the list\n    # first of all\n    \"a\", # a is needed\n\n    # b is\n    # optional\n    \"b\" , # really\n    \"c\" # the last\n    # the end\n]\n";
    assert_eq!(
        remove(before, "a").0,
        "[project]\ndependencies = [ # the list\n\n    # b is\n    # optional\n    \"b\" , # really\n    \"c\" # the last\n    # the end\n]\n"
    );
    assert_eq!(
        remove(before, "b").0,
        "[project]\ndependencies = [ # the list\n    # first of all\n    \"a\", # a is needed\n    \"c\" # the last\n    # the end\n]\n"
    );
    assert_eq!(
        remove(before, "c").0,
        "[project]\ndependencies = [ # the list\n    # first of all\n    \"a\", # a is needed\n\n    # b is\n    # optional\n    \"b\"  # really\n    # the end\n]\n"
    );
}

#[test]
fn the_comment_of_the_new_last_item_stays_on_its_line() {
    let before = "[project]\ndependencies = [\n    \"a\", # first\n    \"b\" # second\n]\n";
    assert_eq!(remove(before, "b").0, "[project]\ndependencies = [\n    \"a\" # first\n]\n");
    assert_eq!(remove(before, "a").0, "[project]\ndependencies = [\n    \"b\" # second\n]\n");
}

#[test]
fn what_is_removed_comes_with_its_pieces() {
    let mut document = read("[project]\ndependencies = [\n  # one\n  \"a\" , # a\n  \"b\" # b\n]\n");
    let first = document.remove_dependency(&name("a"));
    assert_eq!(first.len(), 1);
    assert_eq!(first[0].prefix, b"  # one\n  ");
    assert_eq!(first[0].value, b"\"a\"");
    assert_eq!(first[0].suffix, b" ");
    assert_eq!(first[0].tail, b" # a\n");
    let second = document.remove_dependency(&name("b"));
    assert_eq!(second.len(), 1);
    assert_eq!(second[0].prefix, b"  ");
    assert_eq!(second[0].value, b"\"b\"");
    assert_eq!(second[0].suffix, b"");
    assert_eq!(second[0].tail, b" # b\n");
    assert_eq!(document.to_bytes(), b"[project]\ndependencies = [\n]\n");
}

#[test]
fn a_comment_never_swallows_what_follows_it() {
    let before = "[project]\ndependencies = [ \"x\", # c\n \"y\", \"z\" ]\n";
    assert_eq!(remove(before, "y").0, "[project]\ndependencies = [ \"x\", # c\n \"z\" ]\n");
    assert_eq!(remove(before, "x").0, "[project]\ndependencies = [ \"y\", \"z\" ]\n");
    assert_eq!(remove(before, "z").0, "[project]\ndependencies = [ \"x\", # c\n \"y\" ]\n");
    let before = "[project]\ndependencies = [\"x\" # c\n, \"y\" # d\n]\n";
    assert_eq!(remove(before, "y").0, "[project]\ndependencies = [\"x\" # c\n]\n");
    assert_eq!(remove(before, "x").0, "[project]\ndependencies = [ \"y\" # d\n]\n");
}

/// The values of the dependency list of a manifest.
fn dependencies(text: &str) -> Vec<String> {
    read(text).dependency_values().into_iter().map(|value| String::from_utf8(value).unwrap()).collect()
}

#[test]
fn the_dependencies_are_listed_as_they_are_written() {
    assert_eq!(
        dependencies("[project]\ndependencies = [ \"a>=1\" , # a\n 'b', [1], 2, \"\"\"c\"\"\",\n]\n"),
        ["\"a>=1\"", "'b'", "[1]", "2", "\"\"\"c\"\"\""]
    );
    assert!(dependencies("[project]\ndependencies = []\n").is_empty());
    assert!(dependencies("[project]\ndependencies = \"a\"\n").is_empty());
    assert!(dependencies("[tool]\ndependencies = [\"a\"]\n").is_empty());
    assert!(dependencies("").is_empty());
}

#[test]
fn what_is_written_reads_back_without_the_package() {
    let manifests = [
        "[project]\ndependencies = [\"a\", \"b\", \"c\"]\n",
        "[project]\ndependencies = [\"a\", \"b\", \"c\",]\n",
        "[project]\ndependencies = [ \"a\" , \"b\" , \"c\" , ] # x\n[tool]\nk = 1\n",
        "[project]\ndependencies = [\n  \"a\",\n  \"b\",\n  \"c\",\n]\n",
        "[project]\ndependencies = [\n  \"a\",\n  \"b\",\n  \"c\"\n]\n",
        "[project]\ndependencies = [\n  \"a\", # a\n  \"b\", # b\n  \"c\" # c\n]\n",
        "[project]\ndependencies = [ # h\n  # a\n  \"a\"\n  # a2\n  , # a3\n\n  \"b\" # b\n  ,\"c\"# c\n  # t\n]",
        "[project]\ndependencies = [\"a\", # a\n\"b\", \"c\",\n\n# t\n]\n",
        "[project]\ndependencies = [\"a\",\"b\"# b\n,\n\"c\"]\n",
        "[project]\r\ndependencies = [\r\n  \"a\", # a\r\n  \"b\",\r\n  \"c\"\r\n]\r\n",
        "[project]\ndependencies = [\"a\", 'b', \"c\", \"a\", \"B\", 'c>1']\n",
    ];
    for manifest in manifests {
        assert_eq!(dependencies(manifest).len() >= 3, true);
        for packages in [
            vec!["a"],
            vec!["b"],
            vec!["c"],
            vec!["a", "b"],
            vec!["b", "a"],
            vec!["a", "c"],
            vec!["c", "b"],
            vec!["a", "b", "c"],
            vec!["c", "b", "a"],
        ] {
            let mut expected = dependencies(manifest);
            for package in &packages {
                let gone = name(package);
                expected.retain(|value| !entry_names(value.as_bytes(), &gone));
            }
            let written = edit(manifest, &packages).ok().unwrap();
            assert_eq!(dependencies(&written), expected, "{manifest:?} without {packages:?}");
            // What is written a second time is what was written the first time.
            let again = read(&written).to_bytes();
            assert_eq!(String::from_utf8(again).unwrap(), written);
        }
    }
}

#[test]
fn every_item_that_asks_for_the_package_leaves() {
    let before = "[project]\ndependencies = [\"Click>=7\", \"flask\", \"click ; python_version < '3.8'\", 'CLICK[extra]']\n";
    let (text, removed) = remove(before, "click");
    assert_eq!(text, "[project]\ndependencies = [ \"flask\"]\n");
    assert_eq!(
        removed,
        ["\"Click>=7\"", "\"click ; python_version < '3.8'\"", "'CLICK[extra]'"]
    );
}

#[test]
fn everything_around_the_list_is_left_byte_for_byte() {
    let before = "# My project\r\n[build-system]\nrequires = [\"click\"]\n\n[project]  # here\nname = 'demo'\ndependencies   =   [ \"click\" ,\t\"flask\" ]   # the list\n\n[project.optional-dependencies]\ncli = [\"click\"]\n[tool.x]\ndependencies = [\"click\"]\ntext = \"\"\"\n[project]\ndependencies = [\"click\"]\n\"\"\"\n";
    let after = "# My project\r\n[build-system]\nrequires = [\"click\"]\n\n[project]  # here\nname = 'demo'\ndependencies   =   [\t\"flask\" ]   # the list\n\n[project.optional-dependencies]\ncli = [\"click\"]\n[tool.x]\ndependencies = [\"click\"]\ntext = \"\"\"\n[project]\ndependencies = [\"click\"]\n\"\"\"\n";
    let (text, removed) = remove(before, "click");
    assert_eq!(text, after);
    assert_eq!(removed, ["\"click\""]);
}

#[test]
fn a_package_that_is_not_there_changes_nothing() {
    let before = "[project]\ndependencies = [\n  \"flask\" , # web\n]\n";
    let (text, removed) = remove(before, "django");
    assert_eq!(text, before);
    assert!(removed.is_empty());
}

#[test]
fn removal_is_final() {
    let mut document = read("[project]\ndependencies = [\"a\", \"b\", \"A\"]\n");
    assert_eq!(document.remove_dependency(&name("a")).len(), 2);
    assert_eq!(document.remove_dependency(&name("a")).len(), 0);
    assert_eq!(document.to_bytes(), b"[project]\ndependencies = [ \"b\"]\n");
}

#[test]
fn a_manifest_without_a_list_has_nothing_to_remove() {
    for text in [
        "",
        "[project]\nname = \"demo\"\n",
        "dependencies = [\"click\"]\n",
        "[tool]\ndependencies = [\"click\"]\n",
        "[[project]]\ndependencies = [\"click\"]\n",
        "[project.urls]\ndependencies = [\"click\"]\n",
        "[project]\ndependencies = \"click\"\n",
        "[project]\ndependencies = { click = \"*\" }\n",
        "[project]\n\"dependencies\" = [\"click\"]\n",
        "[\"project\"]\ndependencies = [\"click\"]\n",
    ] {
        let (after, removed) = remove(text, "click");
        assert_eq!(after, text);
        assert!(removed.is_empty());
    }
}

#[test]
fn the_first_list_under_the_project_header_is_the_list() {
    let before = "[project]\nname = \"x\"\n\n# deps\ndependencies = [\"click\"]\ndependencies = [\"click\"]\n";
    let (text, _) = remove(before, "click");
    assert_eq!(
        text,
        "[project]\nname = \"x\"\n\n# deps\ndependencies = []\ndependencies = [\"click\"]\n"
    );
}

#[test]
fn an_entry_is_known_by_its_first_word() {
    let click = name("click");
    for entry in [
        "\"click\"",
        "'click'",
        "\"click>=8\"",
        "\"click >= 8, < 9\"",
        "\"  click\"",
        "\"\tclick\"",
        "\"click[cli,extra]\"",
        "\"click (>=8)\"",
        "\"click!=8.0\"",
        "\"click<9\"",
        "\"click  \"",
        "\"click \t;python_version>'3'\"",
        "\"click @ https://example.com/click.whl\"",
        "\"click;python_version<'3'\"",
        "\"CLICK\"",
        "\"Click~=8.0\"",
    ] {
        assert!(entry_names(entry.as_bytes(), &click), "{entry}");
    }
    for entry in [
        "\"clickhouse\"",
        "\"click-log\"",
        "\"click_log\"",
        "\"click/click\"",
        "\"click is what we use\"",
        "\"click,flask\"",
        "\"click#egg\"",
        "\"click]\"",
        "\"click.\"",
        "\"click- >=1\"",
        "\"-click\"",
        "\"\"",
        "\" \"",
        "\">=1\"",
        "\"\\u0063lick\"",
        "\"\\tclick\"",
        "\"\\\"click\"",
        "\"\"\"click\"\"\"",
        "'''click'''",
        "click",
        "[\"click\"]",
        "{ name = \"click\" }",
        "\"click",
        "\"click'",
        "\"",
        "",
        "1",
    ] {
        assert!(!entry_names(entry.as_bytes(), &click), "{entry}");
    }
}

#[test]
fn a_name_matches_however_the_entry_spells_it() {
    let (text, removed) =
        remove("[project]\ndependencies = [\"my_pkg==1.0\", \"my-pkg2\", \"MY..PKG\"]\n", "My-Pkg");
    assert_eq!(text, "[project]\ndependencies = [ \"my-pkg2\"]\n");
    assert_eq!(removed, ["\"my_pkg==1.0\"", "\"MY..PKG\""]);
}

#[test]
fn items_that_are_no_strings_stay() {
    let before = "[project]\ndependencies = [click, 1, [\"click\"], {click = 1}, \"\"\"click\"\"\", \"click\"]\n";
    let (text, removed) = remove(before, "click");
    assert_eq!(
        text,
        "[project]\ndependencies = [click, 1, [\"click\"], {click = 1}, \"\"\"click\"\"\"]\n"
    );
    assert_eq!(removed, ["\"click\""]);
}

#[test]
fn a_request_removes_its_names_in_order() {
    let before = "[project]\ndependencies = [\n  \"a\",\n  \"b\",\n  \"c\",\n]\n";
    assert_eq!(edit(before, &["c", "a"]).ok().unwrap(), "[project]\ndependencies = [\n  \"b\",\n]\n");
    assert_eq!(edit(before, &[]).ok().unwrap(), before);
    assert_eq!(
        edit(before, &["a", "b", "c"]).ok().unwrap(),
        "[project]\ndependencies = [\n]\n"
    );
}

#[test]
fn a_request_with_a_missing_name_fails_with_that_name() {
    let before = "[project]\ndependencies = [\"a\", \"b\"]\n";
    match edit(before, &["a", "zzz", "b"]) {
        Err(EditError::DependencyNotFound(missing)) => assert_eq!(missing.as_bytes(), b"zzz"),
        _ => panic!("no name is reported missing"),
    }
    match edit(before, &["zzz", "a"]) {
        Err(EditError::DependencyNotFound(missing)) => assert_eq!(missing.as_bytes(), b"zzz"),
        _ => panic!("no name is reported missing"),
    }
}

#[test]
fn a_name_asked_for_twice_is_missing_the_second_time() {
    match edit("[project]\ndependencies = [\"a\", \"b\"]\n", &["a", "A"]) {
        Err(EditError::DependencyNotFound(missing)) => assert_eq!(missing.as_bytes(), b"a"),
        _ => panic!("no name is reported missing"),
    }
}

#[test]
fn a_text_that_is_no_manifest_is_not_edited() {
    match edit("[project]\ndependencies = [\"a\"\n", &["a"]) {
        Err(EditError::Parse(error)) => assert_eq!(error.offset, 10),
        _ => panic!("no parse error"),
    }
}

#[test]
fn the_project_name_is_read_from_the_manifest() {
    let named = |text: &str| {
        read(text).project_name().map(|name| String::from_utf8(name.as_bytes().to_vec()).unwrap())
    };
    assert_eq!(named("[project]\nname = \"My_Project\"\n").as_deref(), Some("my-project"));
    assert_eq!(named("[project]\nversion = \"1\"\nname = 'demo' # it\n").as_deref(), Some("demo"));
    assert_eq!(named("name = \"demo\"\n[project]\nversion = \"1\"\n"), None);
    assert_eq!(named("[tool.x]\nname = \"demo\"\n"), None);
    assert_eq!(named("[project]\nname = \"not a name\"\n"), None);
    assert_eq!(named("[project]\nname = 3\n"), None);
    assert_eq!(named("[project]\nname = [\"demo\"]\n"), None);
    assert_eq!(named("[project]\nname = \"\"\"demo\"\"\"\n"), None);
    assert_eq!(named(""), None);
}

#[test]
fn an_array_is_found_by_the_name_of_its_table_and_its_key() {
    let text = "name = \"root\"\n[project]\nname = \"demo\"\n[project.optional-dependencies]\ncli = [\n    \"click\", # the cli\n    \"rich\",\n]\n[[project]]\nname = \"other\"\n[tool.uv]\ndev-dependencies = [\"pytest\", \"click\"]\n";
    let document = read(text);
    assert_eq!(document.key_at(b"", b"name"), Some(0));
    assert_eq!(document.key_at(b"project", b"name"), Some(2));
    assert_eq!(document.key_at(b"project.optional-dependencies", b"cli"), Some(4));
    assert_eq!(document.key_at(b"tool.uv", b"dev-dependencies"), Some(8));
    assert_eq!(document.key_at(b"project", b"cli"), None);
    assert_eq!(document.key_at(b"tool", b"dev-dependencies"), None);
    assert_eq!(document.key_at(b"", b"cli"), None);
    assert_eq!(document.project_key_at(b"name"), Some(2));
    assert_eq!(document.dependencies_at(), None);
}

#[test]
fn a_package_leaves_the_array_that_is_named() {
    let text = "[project]\ndependencies = [\"click\"]\n[project.optional-dependencies]\ncli = [\n    \"click\", # the cli\n    \"rich\",\n]\n[tool.uv]\ndev-dependencies = [\"pytest\", \"click\"]\n";
    let mut document = read(text);
    let removed = document.remove_from(b"project.optional-dependencies", b"cli", &name("click"));
    assert_eq!(removed.len(), 1);
    assert_eq!(
        String::from_utf8(document.to_bytes()).unwrap(),
        "[project]\ndependencies = [\"click\"]\n[project.optional-dependencies]\ncli = [\n    \"rich\",\n]\n[tool.uv]\ndev-dependencies = [\"pytest\", \"click\"]\n"
    );
    let removed = document.remove_from(b"tool.uv", b"dev-dependencies", &name("click"));
    assert_eq!(removed.len(), 1);
    let removed = document.remove_from(b"tool.uv", b"dependencies", &name("click"));
    assert!(removed.is_empty());
    let removed = document.remove_from(b"project", b"dependencies", &name("Click"));
    assert_eq!(removed.len(), 1);
    assert_eq!(
        String::from_utf8(document.to_bytes()).unwrap(),
        "[project]\ndependencies = []\n[project.optional-dependencies]\ncli = [\n    \"rich\",\n]\n[tool.uv]\ndev-dependencies = [\"pytest\"]\n"
    );
}

#[test]
fn an_entry_without_an_array_is_left_as_it_is() {
    let mut document = read("[project]\nname = \"click\"\ndependencies = [\"click\"]\n");
    assert!(document.remove_at(0, &name("click")).is_empty());
    assert!(document.remove_at(1, &name("click")).is_empty());
    assert!(document.remove_at(3, &name("click")).is_empty());
    assert_eq!(document.to_bytes(), b"[project]\nname = \"click\"\ndependencies = [\"click\"]\n");
    assert_eq!(document.remove_at(2, &name("click")).len(), 1);
    assert_eq!(document.to_bytes(), b"[project]\nname = \"click\"\ndependencies = []\n");
}
