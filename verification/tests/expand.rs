use bundle_builder::expand::{expand, ExpandError};

fn strings(v: &[&str]) -> Vec<String> {
    v.iter().map(|s| s.to_string()).collect()
}

#[test]
fn expand_plain_pattern_is_itself() {
    assert_eq!(expand("/a/b/c"), Ok(strings(&["/a/b/c"])));
    assert_eq!(expand(""), Ok(strings(&[""])));
    assert_eq!(expand("a,b"), Ok(strings(&["a,b"])));
}

#[test]
fn expand_two_groups_in_order() {
    let got = expand("a{1,2}b{x,y,z}").unwrap();
    assert_eq!(got, strings(&["a1bx", "a1by", "a1bz", "a2bx", "a2by", "a2bz"]));
}

#[test]
fn expand_single_group() {
    assert_eq!(expand("/a/{x,y}/b"), Ok(strings(&["/a/x/b", "/a/y/b"])));
    assert_eq!(expand("{a,b}"), Ok(strings(&["a", "b"])));
    assert_eq!(expand("x{a}y"), Ok(strings(&["xay"])));
    assert_eq!(expand("/a/b/{tex,latex}/c"), Ok(strings(&["/a/b/tex/c", "/a/b/latex/c"])));
}

#[test]
fn expand_count_is_product_of_alternatives() {
    let got = expand("{a,b,c}-{1,2}-{x,y,z,w}").unwrap();
    assert_eq!(got.len(), 3 * 2 * 4);
    assert_eq!(got[0], "a-1-x");
    assert_eq!(got[4], "a-2-x");
    assert_eq!(got[8], "b-1-x");
    assert_eq!(got[23], "c-2-w");
}

#[test]
fn expand_keeps_white_space() {
    assert_eq!(expand(" {a , b} "), Ok(strings(&[" a  ", "  b "])));
}

#[test]
fn expand_handles_non_ascii() {
    assert_eq!(expand("é{ü,ß}ø"), Ok(strings(&["éüø", "éßø"])));
}

#[test]
fn expand_result_expands_to_itself() {
    for s in expand("/{a,b}/{c,d}").unwrap() {
        assert_eq!(expand(&s), Ok(vec![s.clone()]));
    }
}

#[test]
fn expand_unmatched_brace() {
    assert_eq!(expand("a{b"), Err(ExpandError::UnmatchedBrace));
    assert_eq!(expand("a}b"), Err(ExpandError::UnmatchedBrace));
    assert_eq!(expand("a}b{c"), Err(ExpandError::UnmatchedBrace));
    assert_eq!(expand("{a,b}{"), Err(ExpandError::UnmatchedBrace));
    assert_eq!(expand("{a,b}}"), Err(ExpandError::UnmatchedBrace));
}

#[test]
fn expand_nested_brace() {
    assert_eq!(expand("a{b{c}}"), Err(ExpandError::NestedBrace));
    assert_eq!(expand("{{a}"), Err(ExpandError::NestedBrace));
}

#[test]
fn expand_empty_group() {
    assert_eq!(expand("a{}b"), Err(ExpandError::EmptyGroup));
    assert_eq!(expand("{}"), Err(ExpandError::EmptyGroup));
}

#[test]
fn expand_empty_alternative() {
    assert_eq!(expand("a{b,,c}"), Err(ExpandError::EmptyAlternative));
    assert_eq!(expand("a{,b}"), Err(ExpandError::EmptyAlternative));
    assert_eq!(expand("a{b,}"), Err(ExpandError::EmptyAlternative));
    assert_eq!(expand("{,}"), Err(ExpandError::EmptyAlternative));
}

#[test]
fn expand_reports_the_tail_before_the_group() {
    assert_eq!(expand("{}{"), Err(ExpandError::UnmatchedBrace));
    assert_eq!(expand("{a,}{}"), Err(ExpandError::EmptyGroup));
    assert_eq!(expand("{a{b}{}"), Err(ExpandError::NestedBrace));
}
