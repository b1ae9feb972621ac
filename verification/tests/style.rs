use merlion_render::parse::style::{
    function_args, hex_digit, is_named_color, named_colors, split_args, split_decls, Rejected,
};

#[test]
fn named_colour_table_is_complete_and_sorted() {
    let table = named_colors();
    assert_eq!(table.len(), 148);
    assert!(table.windows(2).all(|w| w[0] < w[1]));
    for n in ["aliceblue", "yellowgreen", "grey", "darkslategrey", "lime"] {
        assert!(is_named_color(n), "{n}");
    }
    assert!(!is_named_color("transparent"));
}

#[test]
fn named_colours_ignore_ascii_case() {
    assert!(is_named_color("RebeccaPurple"));
    assert!(is_named_color("RED"));
    assert!(!is_named_color("reddish"));
    assert!(!is_named_color(""));
}

#[test]
fn rejected_declarations_keep_their_range() {
    let r = Rejected {
        start: 10,
        end: 17,
        message: String::from("style property `bogus` is not supported; dropped"),
    };
    let text = "fill:red, bogus:1";
    assert_eq!(&text[r.start..r.end], "bogus:1");
    assert_eq!(r.clone(), r);
}

#[test]
fn hex_digits_in_both_cases() {
    assert_eq!(hex_digit(b'0'), Some(0));
    assert_eq!(hex_digit(b'9'), Some(9));
    assert_eq!(hex_digit(b'a'), Some(10));
    assert_eq!(hex_digit(b'F'), Some(15));
    assert_eq!(hex_digit(b'g'), None);
    assert_eq!(hex_digit(b' '), None);
}

#[test]
fn function_arguments_sit_inside_the_parentheses() {
    assert_eq!(function_args("rgba(1, 2, 3, 0.5)", &["rgba", "rgb"]), Some("1, 2, 3, 0.5"));
    assert_eq!(function_args("rgb (1 2 3)", &["rgba", "rgb"]), Some("1 2 3"));
    assert_eq!(function_args("rgb(1, 2, 3", &["rgba", "rgb"]), None);
    assert_eq!(function_args("hsl(1, 2, 3)", &["rgba", "rgb"]), None);
    assert_eq!(function_args("rgb()", &["rgb"]), Some(""));
    // The first name that prefixes the text decides.
    assert_eq!(function_args("rgbx(1)", &["rgb", "rgbx"]), None);
}

fn decls(text: &str) -> Vec<&str> {
    split_decls(text).into_iter().map(|(s, e)| &text[s..e]).collect()
}

#[test]
fn declarations_split_at_top_level_commas() {
    assert_eq!(
        decls("fill:rgb(1,2,3), stroke-dasharray: 5, 10 ,stroke:none"),
        vec!["fill:rgb(1,2,3)", "stroke-dasharray: 5, 10", "stroke:none"]
    );
    assert_eq!(decls(" a:1 ,, b:2 "), vec!["a:1", "b:2"]);
    assert_eq!(split_decls(" a:1 ,, b:2 "), vec![(1, 4), (8, 11)]);
    // A piece without `:` joins only a preceding dasharray.
    assert_eq!(decls("fill:red, 5"), vec!["fill:red", "5"]);
    assert_eq!(decls("STROKE-DASHARRAY:1,2,3"), vec!["STROKE-DASHARRAY:1,2,3"]);
    assert!(split_decls("").is_empty());
    assert!(split_decls(" , ").is_empty());
    // Byte ranges stay on character boundaries.
    assert_eq!(decls("\u{a0}fill:é\u{3000}, color:x"), vec!["fill:é", "color:x"]);
}

#[test]
fn colour_function_arguments_split_by_commas_or_spaces() {
    assert_eq!(split_args("1, 2, 3"), Some(vec!["1", "2", "3"]));
    assert_eq!(split_args(" 255 ,0,  0 , 0.5 "), Some(vec!["255", "0", "0", "0.5"]));
    assert_eq!(split_args("1,,2"), Some(vec!["1", "", "2"]));
    assert_eq!(split_args("1  2\t3"), Some(vec!["1", "2", "3"]));
    assert_eq!(split_args("1 2 3 / 50%"), Some(vec!["1", "2", "3", "50%"]));
    assert_eq!(split_args("1 2 3/"), Some(vec!["1", "2", "3", ""]));
    assert_eq!(split_args("1 2 / 3"), None);
    assert_eq!(split_args(""), Some(Vec::new()));
}
