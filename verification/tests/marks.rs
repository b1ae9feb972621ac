use merlion_render::parse::sequence::Head;
use merlion_render::svg::sequence::marks::{heads, mark, Ink};

#[test]
fn every_head_but_none_names_one_marker() {
    assert!(mark(Head::Plain).is_none());
    let all = heads();
    let mut names: Vec<&str> = all.iter().filter_map(|h| mark(*h)).map(|m| m.name).collect();
    assert_eq!(names.len(), all.len());
    names.sort_unstable();
    names.dedup();
    assert_eq!(names.len(), all.len(), "marker names collide");
    for n in names {
        assert!(
            n.chars().all(|c| c.is_ascii_lowercase() || c == '-'),
            "marker id {n:?} is not safe in a selector"
        );
    }
}

#[test]
fn filled_heads_fill_and_others_stroke() {
    let m = mark(Head::Filled).unwrap();
    assert_eq!((m.name, m.d, m.ink), ("arrow", "M0 0L10 5L0 10Z", Ink::Fill));
    let m = mark(Head::StickBottom).unwrap();
    assert_eq!((m.name, m.d, m.ink), ("stick-bottom", "M1 10L9 5", Ink::Stroke));
}
