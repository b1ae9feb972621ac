use merlion_render::svg::color::is_valid_class_name;

#[test]
fn class_name_grammar() {
    assert!(is_valid_class_name("ok_Name-1"));
    assert!(is_valid_class_name("_x"));
    assert!(!is_valid_class_name("1x"));
    assert!(!is_valid_class_name("a b"));
    assert!(!is_valid_class_name("x\"><script>"));
    assert!(!is_valid_class_name(""));
    let long: String = core::iter::repeat_n('a', 65).collect();
    assert!(!is_valid_class_name(&long));
    let longest: String = core::iter::repeat_n('a', 64).collect();
    assert!(is_valid_class_name(&longest));
}
