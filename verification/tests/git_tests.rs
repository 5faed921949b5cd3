use sigil::git::{parse_name_status, parse_ref_spec, FileStatus};

#[test]
fn parse_ref_spec_two_dots() {
    let (base, head) = parse_ref_spec("main..HEAD").unwrap();
    assert_eq!(base, "main");
    assert_eq!(head, "HEAD");
}

#[test]
fn parse_ref_spec_single_ref() {
    let (base, head) = parse_ref_spec("HEAD~1").unwrap();
    assert_eq!(base, "HEAD~1");
    assert_eq!(head, "HEAD");
}

#[test]
fn parse_ref_spec_three_dots() {
    let (base, head) = parse_ref_spec("main...feature").unwrap();
    assert_eq!(base, "main");
    assert_eq!(head, "feature");
}

#[test]
fn parse_ref_spec_cuts_at_first_separator() {
    let (base, head) = parse_ref_spec("a..b..c").unwrap();
    assert_eq!(base, "a");
    assert_eq!(head, "b..c");
    let (base, head) = parse_ref_spec("..x").unwrap();
    assert_eq!(base, "");
    assert_eq!(head, "x");
}

#[test]
fn name_status_lines() {
    let out = "M\tsrc/a.rs\nA\tnew.py\nD\told.go\nR100\tx\ty\nnot a change\nM\r\n";
    let cs = parse_name_status(out);
    assert_eq!(cs.len(), 3);
    assert_eq!(cs[0].path, "src/a.rs");
    assert_eq!(cs[0].status, FileStatus::Modified);
    assert_eq!(cs[1].path, "new.py");
    assert_eq!(cs[1].status, FileStatus::Added);
    assert_eq!(cs[2].path, "old.go");
    assert_eq!(cs[2].status, FileStatus::Deleted);
}

#[test]
fn name_status_takes_path_after_last_tab() {
    let cs = parse_name_status("M\tdir\tname.rs");
    assert_eq!(cs.len(), 1);
    assert_eq!(cs[0].path, "name.rs");
}
