use bitrag::rustc_text::{error_count, is_white_space, strip_annotations};

#[test]
fn strip_annotations_drops_test_directives() {
    let src = "//@ check-pass\nfn main() {}\n  //~ ERROR foo\n// edition:2021\nlet x = 1;\n";
    assert_eq!(strip_annotations(src), "fn main() {}\nlet x = 1;");
}

#[test]
fn strip_annotations_trims_the_result() {
    assert_eq!(strip_annotations("\n\n  fn a() {}  \n"), "fn a() {}");
    assert_eq!(strip_annotations("// comment\n// compile-flags: -O\n"), "// comment");
    assert_eq!(strip_annotations("// revisions: a b\r\n// aux-build:x.rs\n"), "");
}

#[test]
fn strip_annotations_keeps_inner_blank_lines() {
    assert_eq!(strip_annotations("a\n\n//~ x\nb"), "a\n\nb");
}

#[test]
fn error_count_reads_the_aborting_line() {
    let out = "error[E0308]: mismatched types\nerror: aborting due to 2 previous errors\n";
    assert_eq!(error_count(out), 2);
    assert_eq!(
        error_count("error: aborting due to 3 previous errors; 1 warning emitted\n"),
        3
    );
    assert_eq!(error_count("error: aborting due to +7 errors"), 7);
}

#[test]
fn error_count_falls_back_to_error_lines() {
    let out = "error[E0425]: cannot find value\nerror: aborting due to previous error\n";
    assert_eq!(error_count(out), 1);
    assert_eq!(error_count(""), 0);
    assert_eq!(error_count("warning: unused\n"), 0);
    assert_eq!(error_count("error[E1]\nerror[E2]\n  error[E3]\n"), 2);
}

#[test]
fn error_count_rejects_counts_that_do_not_fit() {
    let out = "error: aborting due to 99999999999 errors\nerror[E1]: x\n";
    assert_eq!(error_count(out), 1);
}

#[test]
fn white_space_characters() {
    assert!(is_white_space(' '));
    assert!(is_white_space('\t'));
    assert!(is_white_space('\u{3000}'));
    assert!(!is_white_space('a'));
    assert!(!is_white_space('\u{200B}'));
}
