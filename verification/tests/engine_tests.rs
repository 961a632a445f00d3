use cdbgen::codec::from_text;
use cdbgen::engine::{plan_update, SyncAction};
use cdbgen::shim::source_files;

fn s(x: &str) -> String {
    x.to_string()
}

fn vs(xs: &[&str]) -> Vec<String> {
    xs.iter().map(|x| x.to_string()).collect()
}

/// Apply one invocation to a file content, returning the new content.
fn apply(content: &str, dir: &str, args: &[&str]) -> String {
    let arguments = vs(args);
    let files = source_files(&arguments);
    match plan_update(content, &s(dir), &arguments, &files).unwrap() {
        SyncAction::Unchanged => content.to_string(),
        SyncAction::Write(text) => text,
    }
}

#[test]
fn bootstrap_creates_records() {
    let arguments = vs(&["cc", "-O2", "a.c"]);
    let files = source_files(&arguments);
    let plan = plan_update("", &s("/proj"), &arguments, &files).unwrap();
    let text = match plan {
        SyncAction::Write(text) => text,
        SyncAction::Unchanged => panic!("expected a write"),
    };
    let db = from_text(&text).unwrap();
    assert_eq!(db.records.len(), 1);
    assert_eq!(db.records[0].directory, "/proj");
    assert_eq!(db.records[0].file, "a.c");
    assert_eq!(db.records[0].arguments, vec![s("cc"), s("-O2"), s("a.c")]);
}

#[test]
fn idempotent_second_call_unchanged() {
    let arguments = vs(&["cc", "-O2", "a.c"]);
    let files = source_files(&arguments);
    let first = plan_update("", &s("/proj"), &arguments, &files).unwrap();
    let text = match first {
        SyncAction::Write(text) => text,
        SyncAction::Unchanged => panic!("expected a write"),
    };
    let second = plan_update(&text, &s("/proj"), &arguments, &files).unwrap();
    assert!(matches!(second, SyncAction::Unchanged));
}

#[test]
fn supersession_keeps_latest_arguments() {
    let t1 = apply("", "/proj", &["cc", "-O2", "a.c"]);
    let t2 = apply(&t1, "/proj", &["cc", "-O3", "a.c"]);
    let db = from_text(&t2).unwrap();
    assert_eq!(db.records.len(), 1);
    assert_eq!(db.records[0].file, "a.c");
    assert_eq!(db.records[0].arguments, vec![s("cc"), s("-O3"), s("a.c")]);
}

#[test]
fn isolation_across_directories() {
    let t1 = apply("", "/dirA", &["cc", "-O1", "a.c"]);
    let t2 = apply(&t1, "/dirB", &["cc", "-O2", "a.c"]);
    let db = from_text(&t2).unwrap();
    assert_eq!(db.records.len(), 2);
    // Updating one directory never alters the other's record.
    let t3 = apply(&t2, "/dirA", &["cc", "-O3", "a.c"]);
    let db = from_text(&t3).unwrap();
    assert_eq!(db.records.len(), 2);
    let b = db
        .records
        .iter()
        .find(|r| r.directory == "/dirB")
        .unwrap();
    assert_eq!(b.arguments, vec![s("cc"), s("-O2"), s("a.c")]);
    let a = db
        .records
        .iter()
        .find(|r| r.directory == "/dirA")
        .unwrap();
    assert_eq!(a.arguments, vec![s("cc"), s("-O3"), s("a.c")]);
}

#[test]
fn multi_file_single_invocation() {
    let text = apply("", "/proj", &["cc", "-O2", "a.c", "b.c"]);
    let db = from_text(&text).unwrap();
    assert_eq!(db.records.len(), 2);
    assert_eq!(db.records[0].file, "a.c");
    assert_eq!(db.records[1].file, "b.c");
    assert_eq!(db.records[0].arguments, db.records[1].arguments);
    assert_eq!(db.records[0].arguments, vec![s("cc"), s("-O2"), s("a.c"), s("b.c")]);
}

#[test]
fn distinct_keys_accumulate() {
    let n = 100;
    let mut content = String::new();
    for i in 0..n {
        let file = format!("foo{:03}.c", i);
        let out = format!("foo{:03}", i);
        content = apply(&content, "/proj", &["cc", "-O2", "-o", &out, &file]);
    }
    let db = from_text(&content).unwrap();
    assert_eq!(db.records.len(), n);
    // Doing the same again changes nothing, byte for byte.
    let mut again = content.clone();
    for i in 0..n {
        let file = format!("foo{:03}.c", i);
        let out = format!("foo{:03}", i);
        again = apply(&again, "/proj", &["cc", "-O2", "-o", &out, &file]);
    }
    assert_eq!(again, content);
    for i in 0..n {
        assert_eq!(db.records[i].directory, "/proj");
        assert_eq!(db.records[i].file, format!("foo{:03}.c", i));
    }
}

#[test]
fn blank_content_is_empty_database() {
    let text = apply("  \n\t  \r\n", "/proj", &["cc", "a.c"]);
    let db = from_text(&text).unwrap();
    assert_eq!(db.records.len(), 1);
}

#[test]
fn no_source_files_plans_no_write() {
    let arguments = vs(&["cc", "-O2"]);
    let files = source_files(&arguments);
    assert!(files.is_empty());
    let plan = plan_update("", &s("/proj"), &arguments, &files).unwrap();
    assert!(matches!(plan, SyncAction::Unchanged));
}

#[test]
fn malformed_content_is_an_error() {
    let arguments = vs(&["cc", "a.c"]);
    let files = source_files(&arguments);
    assert!(plan_update("not records", &s("/p"), &arguments, &files).is_err());
    assert!(plan_update("[oops", &s("/p"), &arguments, &files).is_err());
    assert!(from_text("{}").is_err());
    let empty = from_text("[]\n").unwrap();
    assert_eq!(empty.records.len(), 0);
}
