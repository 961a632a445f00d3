use cdbgen::shim::{compiler_name, source_files};

fn vs(xs: &[&str]) -> Vec<String> {
    xs.iter().map(|x| x.to_string()).collect()
}

#[test]
fn find_compiler() {
    assert_eq!(
        compiler_name(&"cdbgen-foobar".to_string()),
        Some("foobar".to_string())
    );
    assert_eq!(compiler_name(&"cdbgen-g++".to_string()), Some("g++".to_string()));
    assert_eq!(compiler_name(&"gcc".to_string()), None);
    assert_eq!(compiler_name(&"cdbge".to_string()), None);
}

#[test]
fn source_files_are_sorted_and_unique() {
    let args = vs(&["-O2", "baz.c", "-o", "foo.c", "bar.c"]);
    assert_eq!(source_files(&args), vs(&["bar.c", "baz.c", "foo.c"]));
    let dup = vs(&["a.c", "a.c", "b.cc", "c.cpp"]);
    assert_eq!(source_files(&dup), vs(&["a.c", "b.cc", "c.cpp"]));
}

#[test]
fn source_files_go_by_suffix() {
    let args = vs(&["main.rs", "a.cxx", "b.h", "x.c", "y.cc", "z.cpp", "w.C"]);
    assert_eq!(source_files(&args), vs(&["x.c", "y.cc", "z.cpp"]));
    let none = vs(&["-O2", "-o", "out"]);
    assert!(source_files(&none).is_empty());
}
