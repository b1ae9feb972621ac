use merlion_render::model::Stroke;
use merlion_render::parse::edge::{link, LinkFail, LinkTok};
use merlion_render::svg::outline::Arrow;

fn tok(src: &str) -> (LinkTok, usize) {
    link(src, 0).unwrap().unwrap()
}

fn shape(t: &LinkTok) -> (Stroke, Arrow, Arrow, u32) {
    (t.stroke, t.start, t.end, t.min_len)
}

#[test]
fn plain_links() {
    let (t, p) = tok("--> B");
    assert_eq!(shape(&t), (Stroke::Normal, Arrow::Plain, Arrow::Arrow, 1));
    assert_eq!(p, 3);
    assert!(t.label.is_none());
    let (t, p) = tok("--- B");
    assert_eq!(shape(&t), (Stroke::Normal, Arrow::Plain, Arrow::Plain, 1));
    assert_eq!(p, 3);
    let (t, _) = tok("==>");
    assert_eq!(shape(&t), (Stroke::Thick, Arrow::Plain, Arrow::Arrow, 1));
    let (t, p) = tok("-.->");
    assert_eq!(shape(&t), (Stroke::Dotted, Arrow::Plain, Arrow::Arrow, 1));
    assert_eq!(p, 4);
    let (t, p) = tok("~~~~");
    assert_eq!(shape(&t), (Stroke::Invisible, Arrow::Plain, Arrow::Plain, 2));
    assert_eq!(p, 4);
}

#[test]
fn markers_and_length() {
    let (t, _) = tok("<-->");
    assert_eq!(shape(&t), (Stroke::Normal, Arrow::Arrow, Arrow::Arrow, 1));
    let (t, p) = tok("o--o");
    assert_eq!(shape(&t), (Stroke::Normal, Arrow::Circle, Arrow::Circle, 1));
    assert_eq!(p, 4);
    let (t, _) = tok("x==x");
    assert_eq!(shape(&t), (Stroke::Thick, Arrow::Cross, Arrow::Cross, 1));
    let (t, _) = tok("----->");
    assert_eq!(t.min_len, 4);
    let (t, _) = tok("-...-");
    assert_eq!(shape(&t), (Stroke::Dotted, Arrow::Plain, Arrow::Plain, 3));
}

#[test]
fn no_link() {
    assert!(link("A --> B", 0).unwrap().is_none());
    assert!(link("<~~~", 0).unwrap().is_none());
    assert!(link("o~~~", 0).unwrap().is_none());
    assert!(link("-", 0).unwrap().is_none());
    assert!(link("", 0).unwrap().is_none());
}

#[test]
fn inline_labels() {
    let (t, p) = tok("-- text --> B");
    assert_eq!(shape(&t), (Stroke::Normal, Arrow::Plain, Arrow::Arrow, 1));
    let l = t.label.unwrap();
    assert_eq!((l.start, l.end), (2, 8));
    assert!(l.typographic.is_empty());
    assert_eq!(p, 11);
    let (t, p) = tok("-- \"q\" --> B");
    let l = t.label.unwrap();
    assert_eq!((l.start, l.end), (4, 5));
    assert_eq!(p, 10);
    let (t, _) = tok("-. go .-> B");
    assert_eq!(t.stroke, Stroke::Dotted);
    let l = t.label.unwrap();
    assert_eq!((l.start, l.end), (2, 6));
    assert_eq!(
        link("-- text\n--> B", 0).err(),
        Some(LinkFail::Unclosed { at: 0, text_start: 2, stroke: Stroke::Normal })
    );
}

#[test]
fn pipe_labels() {
    let (t, p) = tok("-->|yes| B");
    let l = t.label.unwrap();
    assert_eq!((l.start, l.end), (4, 7));
    assert_eq!(p, 8);
    let (t, p) = tok("--> |\u{201c}a\u{201d}| B");
    let l = t.label.unwrap();
    assert_eq!((l.start, l.end), (8, 9));
    assert_eq!(l.typographic, vec![(5, 8), (9, 12)]);
    assert_eq!(p, 13);
    assert_eq!(link("-->|open", 0).err(), Some(LinkFail::Pipe { open: 3 }));
    assert_eq!(link("-->|a\n|", 0).err(), Some(LinkFail::Pipe { open: 3 }));
}
