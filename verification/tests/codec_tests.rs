use cdbgen::codec::{from_text, to_text};
use cdbgen::db::Database;
use cdbgen::engine::{plan_update, SyncAction};
use cdbgen::merge::merge;
use cdbgen::shim::source_files;

fn s(x: &str) -> String {
    x.to_string()
}

fn vs(xs: &[&str]) -> Vec<String> {
    xs.iter().map(|x| x.to_string()).collect()
}

/// Build a database by merging one invocation per (directory, file, args).
fn build(entries: &[(&str, &str, &[&str])]) -> Database {
    let mut db = Database::empty();
    for (dir, file, args) in entries {
        let arguments = vs(args);
        let files = vec![s(file)];
        db = merge(&db, &s(dir), &arguments, &files);
    }
    db
}

#[test]
fn exact_canonical_format() {
    let db = build(&[("/d", "a.c", &["cc", "-O2", "a.c"])]);
    let text = to_text(&db);
    let expected = "[\n  {\n    \"directory\": \"/d\",\n    \"file\": \"a.c\",\n    \
                    \"arguments\": [\n      \"cc\",\n      \"-O2\",\n      \"a.c\"\n    ]\n  }\n]\n";
    assert_eq!(text, expected);
}

#[test]
fn empty_database_serializes_to_empty_array() {
    let db = Database::empty();
    assert_eq!(to_text(&db), "[]\n");
    let back = from_text("[]\n").unwrap();
    assert_eq!(back.records.len(), 0);
}

#[test]
fn round_trip_plain() {
    let db = build(&[
        ("/d1", "a.c", &["cc", "-O2", "a.c"]),
        ("/d2", "b.c", &["cc", "-I/usr/include", "b.c"]),
    ]);
    let text = to_text(&db);
    let back = from_text(&text).unwrap();
    assert!(db.same_records(&back));
}

#[test]
fn round_trip_special_characters() {
    let db = build(&[(
        "/dir with \"quotes\"",
        "back\\slash.c",
        &["cc", "new\nline", "tab\there", "ctl\u{1}", "caf\u{e9}", "snow\u{2603}"],
    )]);
    let text = to_text(&db);
    let back = from_text(&text).unwrap();
    assert!(db.same_records(&back));
    assert_eq!(back.records[0].directory, "/dir with \"quotes\"");
    assert_eq!(back.records[0].file, "back\\slash.c");
    assert_eq!(back.records[0].arguments[1], "new\nline");
    assert_eq!(back.records[0].arguments[3], "ctl\u{1}");
    assert_eq!(back.records[0].arguments[5], "snow\u{2603}");
}

#[test]
fn serialization_is_order_independent() {
    let forward = build(&[
        ("/d", "a.c", &["cc", "a.c"]),
        ("/d", "b.c", &["cc", "b.c"]),
        ("/e", "a.c", &["cc", "a.c"]),
    ]);
    let backward = build(&[
        ("/e", "a.c", &["cc", "a.c"]),
        ("/d", "b.c", &["cc", "b.c"]),
        ("/d", "a.c", &["cc", "a.c"]),
    ]);
    assert_eq!(to_text(&forward), to_text(&backward));
}

#[test]
fn output_is_valid_json_for_other_tools() {
    let arguments = vs(&["cc", "-O2", "a.c", "b.c"]);
    let files = source_files(&arguments);
    let plan = plan_update("", &s("/proj"), &arguments, &files).unwrap();
    let text = match plan {
        SyncAction::Write(text) => text,
        SyncAction::Unchanged => panic!("expected a write"),
    };
    let value: serde_json::Value = serde_json::from_str(&text).unwrap();
    let entries = value.as_array().unwrap();
    assert_eq!(entries.len(), 2);
    assert_eq!(entries[0]["directory"].as_str().unwrap(), "/proj");
    assert_eq!(entries[0]["file"].as_str().unwrap(), "a.c");
    let args: Vec<&str> = entries[0]["arguments"]
        .as_array()
        .unwrap()
        .iter()
        .map(|a| a.as_str().unwrap())
        .collect();
    assert_eq!(args, vec!["cc", "-O2", "a.c", "b.c"]);
    assert_eq!(entries[1]["file"].as_str().unwrap(), "b.c");
}

#[test]
fn escaped_strings_stay_valid_json() {
    let db = build(&[("/d\"q", "a\\b.c", &["x\ny", "z\u{7}"])]);
    let text = to_text(&db);
    let value: serde_json::Value = serde_json::from_str(&text).unwrap();
    let entries = value.as_array().unwrap();
    assert_eq!(entries[0]["directory"].as_str().unwrap(), "/d\"q");
    assert_eq!(entries[0]["file"].as_str().unwrap(), "a\\b.c");
    assert_eq!(entries[0]["arguments"][0].as_str().unwrap(), "x\ny");
    assert_eq!(entries[0]["arguments"][1].as_str().unwrap(), "z\u{7}");
}

#[test]
fn round_trip_empty_fields() {
    let db = build(&[("", "", &[])]);
    let text = to_text(&db);
    assert!(text.contains("\"arguments\": []"));
    let back = from_text(&text).unwrap();
    assert!(db.same_records(&back));
    assert_eq!(back.records[0].directory, "");
    assert_eq!(back.records[0].file, "");
    assert!(back.records[0].arguments.is_empty());
    let value: serde_json::Value = serde_json::from_str(&text).unwrap();
    assert_eq!(value.as_array().unwrap().len(), 1);
}
