use sort_package_json::{sort_package_json, sort_package_json_with_options, SortOptions};

fn compact(s: &str) -> String {
    sort_package_json_with_options(s, &SortOptions { pretty: false }).expect("valid JSON")
}

#[test]
fn test_known_fields_order() {
    let out = sort_package_json(r#"{"version":"1.0.0","name":"x"}"#).unwrap();
    assert_eq!(out, "{\n  \"name\": \"x\",\n  \"version\": \"1.0.0\"\n}\n");
}

#[test]
fn test_keywords_sorted_unique() {
    let out = compact(r#"{"name":"p","keywords":["b","a","a"]}"#);
    assert_eq!(out, r#"{"name":"p","keywords":["a","b"]}"#);
}

#[test]
fn test_keywords_keep_non_strings() {
    let out = compact(r#"{"name":"p","keywords":["dup","dup",123,123,true,true,null,null]}"#);
    assert_eq!(out, r#"{"name":"p","keywords":["dup",123,123,true,true,null,null]}"#);
}

#[test]
fn test_exports_order() {
    let out = compact(r#"{"name":"p","exports":{"extra":"x",".":{"default":"./i.js","types":"./i.d.ts"}}}"#);
    assert_eq!(
        out,
        r#"{"name":"p","exports":{".":{"types":"./i.d.ts","default":"./i.js"},"extra":"x"}}"#
    );
}

#[test]
fn test_bucket_order() {
    let out = compact(r#"{"_b":1,"z":2,"_a":3,"name":"p"}"#);
    assert_eq!(out, r#"{"name":"p","z":2,"_a":3,"_b":1}"#);
}

#[test]
fn test_idempotency() {
    let input = r#"{"_y":0,"z":2,"version":"1.0.0","name":"p","keywords":["b","a","a"],
        "exports":{"extra":"x",".":{"default":"./i.js","types":"./i.d.ts"},"types":"./t"},
        "author":{"url":"u","name":"n"},"dependencies":{"b":"1","a":"2"},
        "jest":{"b":{"d":1,"c":2},"a":3},"_x":[1,2]}"#;
    let first = sort_package_json(input).expect("valid JSON");
    let second = sort_package_json(&first).expect("valid JSON");
    assert_eq!(first, second, "Sorting should be idempotent");
}

#[test]
fn test_bom_preserved() {
    let out = compact("\u{feff}{\"name\":\"p\"}");
    assert_eq!(out, "\u{feff}{\"name\":\"p\"}");
}

#[test]
fn test_no_bom_added() {
    let out = compact("{\"name\":\"p\"}");
    assert!(!out.starts_with('\u{feff}'));
}

#[test]
fn test_people_order() {
    let out = compact(r#"{"name":"p","author":{"url":"u","name":"n","email":"e"}}"#);
    assert_eq!(out, r#"{"name":"p","author":{"name":"n","email":"e","url":"u"}}"#);
}

#[test]
fn test_dependencies_alphabetical() {
    let out = compact(r#"{"name":"p","dependencies":{"b":"1","a":"2"}}"#);
    assert_eq!(out, r#"{"name":"p","dependencies":{"a":"2","b":"1"}}"#);
}

#[test]
fn test_recursive_sort() {
    let out = compact(r#"{"name":"p","jest":{"b":{"d":1,"c":2},"a":3}}"#);
    assert_eq!(out, r#"{"name":"p","jest":{"a":3,"b":{"c":2,"d":1}}}"#);
}

#[test]
fn test_repository_key_order() {
    let out = compact(r#"{"name":"p","repository":{"url":"r","type":"git","dir":"d"}}"#);
    assert_eq!(out, r#"{"name":"p","repository":{"type":"git","url":"r","dir":"d"}}"#);
}

#[test]
fn test_number_lexeme_untouched() {
    let out = compact(r#"{"name":"p","z":1.50e2}"#);
    assert_eq!(out, r#"{"name":"p","z":1.50e2}"#);
}

#[test]
fn test_string_escapes_round_trip() {
    let out = compact("{\"name\":\"p\",\"x\":\"a\\nb\\u0041\\\\\"}");
    assert_eq!(out, "{\"name\":\"p\",\"x\":\"a\\nbA\\\\\"}");
}

#[test]
fn test_top_level_array_bypasses() {
    assert_eq!(compact("[3, 1, 2]"), "[3,1,2]");
    assert_eq!(sort_package_json("[3,1]").unwrap(), "[\n  3,\n  1\n]\n");
}

#[test]
fn test_top_level_scalar() {
    assert_eq!(compact(" 42 "), "42");
    assert_eq!(compact("\"s\""), "\"s\"");
}

#[test]
fn test_empty_object() {
    assert_eq!(compact(" { } "), "{}");
    assert_eq!(sort_package_json("{}").unwrap(), "{}\n");
}

#[test]
fn test_duplicate_keys_last_wins() {
    let out = compact(r#"{"z":1,"z":2}"#);
    assert_eq!(out, r#"{"z":2}"#);
}

#[test]
fn test_malformed_is_rejected() {
    assert!(sort_package_json("{").is_err());
    assert!(sort_package_json("tru").is_err());
    assert!(sort_package_json("[1,]").is_err());
    assert!(sort_package_json("01").is_err());
    assert!(sort_package_json("{\"a\":\"\\ud800\"}").is_err());
    assert!(sort_package_json("").is_err());
}

#[test]
fn test_surrogate_pair_decoded() {
    let out = compact("{\"x\":\"\\ud834\\udd1e\"}");
    assert_eq!(out, "{\"x\":\"\u{1d11e}\"}");
}

#[test]
fn test_malformed_shape_is_tolerated() {
    // a recognized field whose value has the wrong shape passes through
    let out = compact(r#"{"name":"p","dependencies":"oops","keywords":7}"#);
    assert_eq!(out, r#"{"name":"p","keywords":7,"dependencies":"oops"}"#);
}

#[test]
fn test_pretty_nested_layout() {
    let out = sort_package_json(r#"{"name":"p","files":["b","a"]}"#).unwrap();
    assert_eq!(out, "{\n  \"name\": \"p\",\n  \"files\": [\n    \"a\",\n    \"b\"\n  ]\n}\n");
}

#[test]
fn test_default_options_are_pretty() {
    let input = r#"{"name":"p"}"#;
    let a = sort_package_json(input).unwrap();
    let b = sort_package_json_with_options(input, &SortOptions::default()).unwrap();
    assert_eq!(a, b);
    assert!(a.ends_with('\n'));
}
