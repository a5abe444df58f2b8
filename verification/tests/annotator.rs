use typeshare_annotator::annotator::add_typeshare_annotations;

const HEADER: &str = "use typeshare::typeshare;";
const SKIP: &str = "#[serde(skip)]";
const SHARE: &str = "#[typeshare]";
const TAG: &str = "#[serde(tag = \"type_typeshare\", content = \"content_typeshare\")]";

fn run(input: &str) -> String {
    String::from_utf8(add_typeshare_annotations(input.as_bytes())).unwrap()
}

fn is_annotation(line: &str) -> bool {
    line == HEADER || line == SKIP || line == SHARE || line == TAG
}

#[test]
fn empty_input_gives_empty_output() {
    assert_eq!(run(""), "");
}

#[test]
fn header_and_share_on_simple_struct() {
    let out = run("pub struct Foo {\n}\n");
    assert_eq!(out, "use typeshare::typeshare;\n#[typeshare]\npub struct Foo {\n}\n");
}

#[test]
fn header_waits_for_first_non_doc_line() {
    let out = run("//! docs\n//! more\nfn x() {}\n");
    assert_eq!(out, "//! docs\n//! more\nuse typeshare::typeshare;\nfn x() {}\n");
}

#[test]
fn header_inserted_exactly_once() {
    let out = run("fn a() {}\nfn b() {}\npub struct C {\n}\n");
    let count = out.lines().filter(|l| *l == HEADER).count();
    assert_eq!(count, 1);
}

#[test]
fn header_missing_when_all_lines_are_doc_comments() {
    let out = run("//! a\n//! b\n");
    assert_eq!(out, "//! a\n//! b\n");
}

#[test]
fn span_struct_gets_skip_not_share() {
    let out = run("pub struct Span {\n    lo: u32,\n}\n");
    let lines: Vec<&str> = out.lines().collect();
    let at = lines.iter().position(|l| *l == "pub struct Span {").unwrap();
    assert_eq!(lines[at - 1], SKIP);
    assert!(!out.lines().any(|l| l == SHARE));
}

#[test]
fn alias_line_gets_no_share() {
    let out = run("    pub type FxHashMap<K, V> = HashMap<K, V>;\n");
    assert_eq!(
        out,
        "use typeshare::typeshare;\n    pub type FxHashMap<K, V> = HashMap<K, V>;\n"
    );
}

#[test]
fn near_miss_alias_line_is_shared() {
    let out = run("pub type FxHashMap<K, V> = HashMap<K, V>; \n");
    assert_eq!(
        out,
        "use typeshare::typeshare;\n#[typeshare]\npub type FxHashMap<K, V> = HashMap<K, V>; \n"
    );
}

#[test]
fn excluded_enums_get_no_tag() {
    for name in ["ItemKind", "TraitBoundModifier", "MacroKind"] {
        let input = format!("pub enum {} {{\n}}\n", name);
        let out = run(&input);
        assert!(!out.lines().any(|l| l == TAG), "no tag expected for {}", name);
        assert_eq!(out.lines().filter(|l| *l == SHARE).count(), 1);
    }
}

#[test]
fn other_enum_gets_share_and_tag() {
    let out = run("pub enum Visibility {\n}\n");
    assert_eq!(
        out,
        format!(
            "{}\n{}\n{}\npub enum Visibility {{\n}}\n",
            HEADER, SHARE, TAG
        )
    );
}

#[test]
fn enum_with_missing_name_still_tagged() {
    let out = run("pub enum\n");
    assert!(out.lines().any(|l| l == TAG));
}

#[test]
fn nested_enum_tagged_but_not_shared() {
    let out = run("pub struct X {\npub enum Inner {\n}\n}\n");
    let expected = format!(
        "{}\n{}\npub struct X {{\n{}\npub enum Inner {{\n}}\n}}\n",
        HEADER, SHARE, TAG
    );
    assert_eq!(out, expected);
}

#[test]
fn no_declaration_annotation_inside_block() {
    let out = run("pub struct Foo {\n    pub a: A { },\n    pub b: B { },\n}\npub fn f() {}\n");
    assert_eq!(out.lines().filter(|l| *l == SHARE).count(), 2);
    let lines: Vec<&str> = out.lines().collect();
    let a = lines.iter().position(|l| *l == "    pub a: A { },").unwrap();
    assert!(!is_annotation(lines[a - 1]));
    let b = lines.iter().position(|l| *l == "    pub b: B { },").unwrap();
    assert!(!is_annotation(lines[b - 1]));
}

#[test]
fn excluded_fields_get_skip_at_any_depth() {
    let out = run("pub struct Item {\n    pub span: Option<Span>,\n    pub inputs: Vec<(String, Type)>,\n}\n");
    let lines: Vec<&str> = out.lines().collect();
    let s = lines.iter().position(|l| *l == "    pub span: Option<Span>,").unwrap();
    assert_eq!(lines[s - 1], SKIP);
    let i = lines.iter().position(|l| *l == "    pub inputs: Vec<(String, Type)>,").unwrap();
    assert_eq!(lines[i - 1], SKIP);
}

#[test]
fn stripping_annotations_recovers_input() {
    let input = "//! top\npub struct Span {\n    pub span: Option<Span>,\n}\npub enum Visibility {\n}\nfn private() {}\n";
    let out = run(input);
    let stripped: Vec<&str> = out.lines().filter(|l| !is_annotation(l)).collect();
    let original: Vec<&str> = input.lines().collect();
    assert_eq!(stripped, original);
}

#[test]
fn output_line_count_is_input_plus_annotations() {
    let input = "pub struct A {\n}\npub enum B {\n}\n";
    let out = run(input);
    let annotations = out.lines().filter(|l| is_annotation(l)).count();
    assert_eq!(out.lines().count(), input.lines().count() + annotations);
}

#[test]
fn carriage_returns_are_normalized() {
    let out = run("pub struct A {\r\n}\r\n");
    assert_eq!(out, "use typeshare::typeshare;\n#[typeshare]\npub struct A {\n}\n");
}

#[test]
fn missing_final_newline_is_added() {
    let out = run("fn a() {}");
    assert_eq!(out, "use typeshare::typeshare;\nfn a() {}\n");
}

#[test]
fn pub_without_trailing_space_not_annotated() {
    let out = run("pub(crate) fn f() {}\n");
    assert_eq!(out, "use typeshare::typeshare;\npub(crate) fn f() {}\n");
}

#[test]
fn one_line_item_closes_its_block() {
    let out = run("pub struct A { pub x: u8 }\npub struct B {\n}\n");
    assert_eq!(out.lines().filter(|l| *l == SHARE).count(), 2);
}

#[test]
fn unbalanced_braces_keep_the_block_open() {
    let out = run("pub fn f() }\n}\npub struct B {\n}\n");
    assert_eq!(out.lines().filter(|l| *l == SHARE).count(), 1);
    let lines: Vec<&str> = out.lines().collect();
    let b = lines.iter().position(|l| *l == "pub struct B {").unwrap();
    assert!(!is_annotation(lines[b - 1]));
}

#[test]
fn realistic_snippet_end_to_end() {
    let input = "//! Generated types.\n\npub struct Span {\n    pub lo: u32,\n}\n\npub struct Function {\n    pub span: Option<Span>,\n    pub inputs: Vec<(String, Type)>,\n}\n\npub enum ItemKind {\n    Use,\n}\n\npub type FxHashMap<K, V> = HashMap<K, V>;\n";
    let expected = "//! Generated types.\nuse typeshare::typeshare;\n\n#[serde(skip)]\npub struct Span {\n    pub lo: u32,\n}\n\n#[typeshare]\npub struct Function {\n#[serde(skip)]\n    pub span: Option<Span>,\n#[serde(skip)]\n    pub inputs: Vec<(String, Type)>,\n}\n\n#[typeshare]\npub enum ItemKind {\n    Use,\n}\n\npub type FxHashMap<K, V> = HashMap<K, V>;\n";
    assert_eq!(run(input), expected);
}
