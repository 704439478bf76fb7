use internetarchive_core::iarequest::{
    patch_with_expectations, prepare_files_patch, prepare_metadata, prepare_metadata_headers,
    prepare_patch, prepare_target_patch, try_patch_destination, try_prepare_metadata,
    try_prepare_patch,
};
use internetarchive_core::json::{JsonNumber, JsonValue};
use internetarchive_core::strmap::StrMap;

fn s(v: &str) -> JsonValue {
    JsonValue::String(v.to_string())
}

fn obj(pairs: Vec<(&str, JsonValue)>) -> StrMap<JsonValue> {
    StrMap::from_pairs(pairs.into_iter().map(|(k, v)| (k.to_string(), v)).collect())
}

fn val(pairs: Vec<(&str, JsonValue)>) -> JsonValue {
    JsonValue::Object(obj(pairs))
}

fn arr(items: Vec<JsonValue>) -> JsonValue {
    JsonValue::Array(items)
}

fn op(kind: &str, path: &str, value: JsonValue) -> JsonValue {
    val(vec![("op", s(kind)), ("path", s(path)), ("value", value)])
}

#[test]
fn prepares_basic_metadata() {
    let metadata = val(vec![("title", s("New Title"))]);
    let source = val(vec![("title", s("Old Title"))]);
    let patch = prepare_patch(&metadata, &source, false, None, false, false);
    assert!(!patch.is_empty());
}

#[test]
fn patch_replaces_changed_title() {
    let metadata = val(vec![("title", s("New Title"))]);
    let source = val(vec![("title", s("Old Title"))]);
    let patch = prepare_patch(&metadata, &source, false, None, false, false);
    assert_eq!(patch, vec![op("replace", "/title", s("New Title"))]);
    let same = prepare_patch(&source, &source, false, None, false, false);
    assert!(same.is_empty());
}

#[test]
fn patch_starts_with_expectations() {
    let metadata = val(vec![("title", s("New"))]);
    let source = val(vec![("title", s("Old")), ("subject", arr(vec![s("a"), s("b")]))]);
    let expect = obj(vec![("title", s("Old")), ("subject[1]", s("b"))]);
    let patch = prepare_patch(&metadata, &source, false, Some(&expect), false, false);
    assert_eq!(patch.len(), 3);
    assert_eq!(patch[0], op("test", "/subject/1", s("b")));
    assert_eq!(patch[1], op("test", "/title", s("Old")));
    assert_eq!(patch[2], op("replace", "/title", s("New")));
}

#[test]
fn patch_removes_tagged_members() {
    let metadata = val(vec![("subject", s("REMOVE_TAG"))]);
    let source = val(vec![("subject", s("x")), ("title", s("t"))]);
    let patch = prepare_patch(&metadata, &source, false, None, false, false);
    let remove = val(vec![("op", s("remove")), ("path", s("/subject"))]);
    assert_eq!(patch, vec![remove]);
}

#[test]
fn metadata_append_joins_with_json_text() {
    let md = obj(vec![("title", s("New")), ("count", JsonValue::Number(JsonNumber::PosInt(3)))]);
    let source = obj(vec![("title", s("Old")), ("count", s("n"))]);
    let prepared = prepare_metadata(&md, Some(&source), true, false, false);
    assert_eq!(prepared.get("title"), Some(&s("Old \"New\"")));
    assert_eq!(prepared.get("count"), Some(&s("n 3")));
}

#[test]
fn metadata_append_list_adds_new_values_once() {
    let md = obj(vec![("subject", s("b")), ("title", s("t"))]);
    let source = obj(vec![("subject", arr(vec![s("a"), s("b")])), ("title", s("old"))]);
    let prepared = prepare_metadata(&md, Some(&source), false, true, false);
    assert_eq!(prepared.get("subject"), Some(&arr(vec![s("a"), s("b")])));
    assert_eq!(prepared.get("title"), Some(&arr(vec![s("old"), s("t")])));
}

#[test]
fn indexed_keys_set_and_remove_elements() {
    let md = obj(vec![("subject[1]", s("B")), ("subject[0]", s("REMOVE_TAG"))]);
    let source = obj(vec![("subject", arr(vec![s("a"), s("b"), s("c")]))]);
    let prepared = prepare_metadata(&md, Some(&source), false, false, false);
    assert_eq!(prepared.get("subject"), Some(&arr(vec![s("B"), s("c")])));
}

#[test]
fn indexed_insert_moves_existing_value() {
    let md = obj(vec![("subject[0]", s("c"))]);
    let source = obj(vec![("subject", arr(vec![s("a"), s("b"), s("c")]))]);
    let prepared = prepare_metadata(&md, Some(&source), false, false, true);
    assert_eq!(prepared.get("subject"), Some(&arr(vec![s("c"), s("a"), s("b")])));
}

#[test]
fn insert_with_a_plain_string_key_is_refused() {
    // With `insert`, `subject` also becomes `subject[0]`; the plain key has
    // already prepared a string there, which cannot take an index.
    let md = obj(vec![("subject", s("z"))]);
    let source = obj(vec![("subject", arr(vec![s("a")]))]);
    assert!(try_prepare_metadata(&md, Some(&source), false, false, true).is_none());
    let listed = obj(vec![("subject", arr(vec![s("z")]))]);
    let prepared = prepare_metadata(&listed, Some(&source), false, false, true);
    assert_eq!(prepared.get("subject"), Some(&arr(vec![arr(vec![s("z")]), s("z")])));
}

#[test]
fn prepared_metadata_drops_nulls() {
    let md = obj(vec![("gone", JsonValue::Null), ("kept", s("v"))]);
    let prepared = prepare_metadata(&md, None, false, false, false);
    assert_eq!(prepared.len(), 1);
    assert_eq!(prepared.get("kept"), Some(&s("v")));
}

#[test]
fn malformed_indexed_keys_are_refused() {
    let md = obj(vec![("a]x[", s("v"))]);
    assert!(try_prepare_metadata(&md, None, false, false, false).is_none());
    let md = obj(vec![("title", s("t")), ("title[0]", s("u"))]);
    // The plain `title` is prepared as a string, which cannot take an index.
    assert!(try_prepare_metadata(&md, None, false, false, false).is_none());
    let metadata = val(vec![("a]x[", s("v"))]);
    assert!(try_prepare_patch(&metadata, &val(vec![]), false, None, false, false).is_none());
}

#[test]
fn target_patch_follows_the_path() {
    let source = val(vec![(
        "files",
        arr(vec![val(vec![("name", s("a.txt")), ("title", s("old"))])]),
    )]);
    let metadata = val(vec![("title", s("new"))]);
    let patch = prepare_target_patch(&metadata, &source, false, "files/0", false, false, None);
    assert_eq!(patch, vec![op("replace", "/title", s("new"))]);
}

#[test]
fn files_patch_finds_the_named_file() {
    let files = vec![
        val(vec![("name", s("a.txt")), ("title", s("A"))]),
        val(vec![("name", s("b.txt")), ("title", s("B"))]),
    ];
    let metadata = val(vec![("title", s("new"))]);
    let patch = prepare_files_patch(&metadata, &files, "files/b.txt", false, false, false, None);
    assert_eq!(patch, vec![op("replace", "/title", s("new"))]);
    let none = prepare_files_patch(&metadata, &files, "files/c.txt", false, false, false, None);
    assert!(none.is_empty());
}

#[test]
fn builds_metadata_headers() {
    let mut headers = StrMap::new();
    let metadata = obj(vec![("source", s("a b"))]);
    prepare_metadata_headers(&mut headers, &metadata, &StrMap::new(), true);
    assert_eq!(headers.get("x-archive-auto-make-bucket"), Some(&"1".to_string()));
}

#[test]
fn metadata_headers_encode_values_and_names() {
    let mut headers = StrMap::new();
    let metadata = obj(vec![
        ("source", s("a b")),
        ("my_key", arr(vec![s("x"), JsonValue::Null, JsonValue::Number(JsonNumber::PosInt(5))])),
    ]);
    let file_metadata = obj(vec![("note", s("ø"))]);
    prepare_metadata_headers(&mut headers, &metadata, &file_metadata, false);
    assert_eq!(headers.get("x-archive-queue-derive"), Some(&"0".to_string()));
    assert_eq!(headers.get("x-archive-meta00-source"), Some(&"uri(a%20b)".to_string()));
    assert_eq!(headers.get("x-archive-meta00-my--key"), Some(&"x".to_string()));
    assert_eq!(headers.get("x-archive-meta01-my--key"), None);
    assert_eq!(headers.get("x-archive-meta02-my--key"), Some(&"5".to_string()));
    assert_eq!(headers.get("x-archive-filemeta00-note"), Some(&"uri(%C3%B8)".to_string()));
    assert_eq!(headers.len(), 6);
}

#[test]
fn patch_destination_merges_and_drops_tags() {
    let metadata = val(vec![("title", s("New")), ("subject", s("REMOVE_TAG"))]);
    let source = val(vec![("title", s("Old")), ("subject", s("x")), ("year", s("1999"))]);
    let destination = try_patch_destination(&metadata, &source, false, false, false).unwrap();
    assert_eq!(destination, val(vec![("title", s("New")), ("year", s("1999"))]));
    // A value that is neither an object nor an array is applied as a list.
    let scalar = try_patch_destination(&s("v"), &JsonValue::Null, false, false, false).unwrap();
    assert_eq!(scalar, arr(vec![s("v")]));
    // An object prepared against a source that is not an object changes nothing.
    let unchanged = try_patch_destination(&metadata, &s("text"), false, false, false).unwrap();
    assert_eq!(unchanged, s("text"));
}

#[test]
fn expectations_come_before_the_patch() {
    let diff = vec![op("add", "/a", s("1"))];
    assert_eq!(patch_with_expectations(None, diff.clone()), Some(diff.clone()));
    let expect = obj(vec![("a[2]", s("z"))]);
    assert_eq!(
        patch_with_expectations(Some(&expect), diff.clone()),
        Some(vec![op("test", "/a/2", s("z")), op("add", "/a", s("1"))])
    );
    let unreadable = obj(vec![("a[x]", s("z"))]);
    assert_eq!(
        patch_with_expectations(Some(&unreadable), vec![]),
        Some(vec![op("test", "/a/0", s("z"))])
    );
    let broken = obj(vec![("a]b[", s("z"))]);
    assert_eq!(patch_with_expectations(Some(&broken), diff), None);
}

#[test]
fn metadata_headers_leave_other_headers() {
    let mut headers = StrMap::new();
    headers.insert("Authorization".to_string(), "LOW a:s".to_string());
    headers.insert("x-archive-auto-make-bucket".to_string(), "0".to_string());
    let metadata = obj(vec![("collection", arr(vec![s("a"), s("b")]))]);
    prepare_metadata_headers(&mut headers, &metadata, &StrMap::new(), true);
    assert_eq!(headers.get("Authorization"), Some(&"LOW a:s".to_string()));
    assert_eq!(headers.get("x-archive-auto-make-bucket"), Some(&"1".to_string()));
    assert_eq!(headers.get("x-archive-queue-derive"), Some(&"1".to_string()));
    assert_eq!(headers.get("x-archive-meta01-collection"), Some(&"b".to_string()));
    assert_eq!(headers.len(), 5);
}
