use bundle_builder::error::BuildError;
use bundle_builder::ignore::IgnoreFilter;

fn strings(v: &[&str]) -> Vec<String> {
    v.iter().map(|s| s.to_string()).collect()
}

#[test]
fn filter_without_rules_ignores_nothing() {
    let f = IgnoreFilter::compile(&vec![], "tl", &vec![]).ok().unwrap();
    assert!(!f.matches("/tl/a"));
    assert!(!f.ignore_file("tl", "a"));
    assert!(!f.matches(""));
}

#[test]
fn global_rules_are_anchored_as_they_are() {
    let f = IgnoreFilter::compile(&strings(&[r"/tl/doc/.*", r".*\.pdf"]), "tl", &vec![]).ok().unwrap();
    assert!(f.matches("/tl/doc/readme"));
    assert!(f.matches("/other/x.pdf"));
    assert!(!f.matches("/tl/docs"));
    assert!(!f.matches("x/tl/doc/readme"));
    assert!(!f.matches("/other/x.pdf.txt"));
    assert!(f.ignore_file("tl", "doc/a/b"));
    assert!(!f.ignore_file("tl", "tex/a"));
}

#[test]
fn input_rules_lie_below_the_input() {
    let f = IgnoreFilter::compile(&vec![], "texlive", &strings(&[r"foo/.*\.txt"])).ok().unwrap();
    assert!(f.ignore_file("texlive", "foo/bar.txt"));
    assert!(f.matches("/texlive/foo/bar.txt"));
    assert!(!f.matches("/other/foo/bar.txt"));
    assert!(!f.matches("foo/bar.txt"));
    assert!(!f.ignore_file("texlive", "foo/bar.tex"));
    assert!(!f.ignore_file("texlive", "x/foo/bar.txt"));
}

#[test]
fn comments_and_blank_lines_are_no_rules() {
    let f = IgnoreFilter::compile(
        &strings(&["# a comment", "", "   ", "  # indented comment", "  /a/b  "]),
        "s",
        &strings(&["#x", " c "]),
    )
    .ok()
    .unwrap();
    assert!(f.matches("/a/b"));
    assert!(f.matches("/s/c"));
    assert!(!f.matches("# a comment"));
    assert!(!f.matches(""));
    assert!(!f.matches("/s/#x"));
    assert!(!f.matches("  /a/b  "));
}

#[test]
fn a_rule_that_is_no_expression_fails() {
    assert_eq!(
        IgnoreFilter::compile(&strings(&["a(b"]), "s", &vec![]).err(),
        Some(BuildError::IgnorePatternInvalid)
    );
    assert_eq!(
        IgnoreFilter::compile(&strings(&["ok"]), "s", &strings(&["fine", "[z-a]"])).err(),
        Some(BuildError::IgnorePatternInvalid)
    );
    assert!(IgnoreFilter::compile(&strings(&["# a(b"]), "s", &vec![]).is_ok());
}

#[test]
fn one_more_rule_ignores_no_less() {
    let paths = ["/s/a.txt", "/s/b.tex", "/s/doc/x", "/t/a.txt"];
    let few = IgnoreFilter::compile(&strings(&[r".*\.txt"]), "s", &vec![]).ok().unwrap();
    let more = IgnoreFilter::compile(&strings(&[r".*\.txt"]), "s", &strings(&["doc/.*"])).ok().unwrap();
    for p in paths {
        if few.matches(p) {
            assert!(more.matches(p));
        }
    }
    assert!(more.matches("/s/doc/x") && !few.matches("/s/doc/x"));
}
