use merlion_render::stylesheet::scan::{declarations, items, normalise, split_list, Item};

fn view(v: Vec<(Item, bool)>) -> Vec<((usize, usize), Option<(usize, usize)>, bool)> {
    v.into_iter().map(|(i, n)| (i.prelude, i.body, n)).collect()
}

#[test]
fn items_are_blocks_and_statements() {
    let src = "a { b } c;";
    let got = view(items(src, 0, src.len(), 1, 2).ok().unwrap());
    assert_eq!(got, vec![((0, 1), Some((3, 6)), false), ((8, 9), None, false)]);
}

#[test]
fn nested_blocks_are_flagged_and_limited() {
    let src = "x{y{z}}";
    let got = view(items(src, 0, src.len(), 1, 2).ok().unwrap());
    assert_eq!(got, vec![((0, 1), Some((2, 6)), true)]);
    assert!(items(src, 0, src.len(), 1, 1).is_err());
    assert!(items("a{}", 0, 3, 3, 2).is_err());
}

#[test]
fn comments_and_strings_hide_braces() {
    let src = "/* c */ a { b: '}' }";
    let got = view(items(src, 0, src.len(), 1, 2).ok().unwrap());
    assert_eq!(got, vec![((8, 9), Some((11, 19)), false)]);
}

#[test]
fn an_unclosed_block_runs_to_the_end() {
    let src = "a { b";
    let got = view(items(src, 0, src.len(), 1, 2).ok().unwrap());
    assert_eq!(got, vec![((0, 1), Some((3, 5)), false)]);
    let got = view(items("  ;  ; tail", 0, 11, 1, 2).ok().unwrap());
    assert_eq!(got, vec![((7, 11), None, false)]);
}

#[test]
fn declarations_split_at_top_level_semicolons() {
    let src = "a: b; c:d;e";
    assert_eq!(
        declarations(src, 0, src.len()),
        vec![((0, 1), (3, 4)), ((6, 7), (8, 9)), ((10, 10), (10, 11))]
    );
    let src = "x: f(a;b); ;y";
    assert_eq!(
        declarations(src, 0, src.len()),
        vec![((0, 1), (3, 9)), ((12, 12), (12, 13))]
    );
}

#[test]
fn normalise_drops_comments_and_collapses_whitespace() {
    assert_eq!(normalise("  a  /* c */ b\n\tc  "), "a b c");
    assert_eq!(normalise("/*x*/"), "");
    assert_eq!(normalise("a/*unclosed"), "a");
    assert_eq!(normalise("é/**/ü"), "é ü");
}

#[test]
fn split_list_respects_brackets_and_quotes() {
    assert_eq!(
        split_list("a, b(c, d) , 'e,f', g"),
        vec!["a", "b(c, d)", "'e,f'", "g"]
    );
    assert_eq!(split_list(""), vec![""]);
    assert_eq!(split_list("[x=\",\"],y"), vec!["[x=\",\"]", "y"]);
}
