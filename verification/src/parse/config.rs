//! The value tree that front matter and `%%{init}%%` directives parse into.

use vstd::prelude::*;

verus! {

/// A parsed YAML or JSON value. Every scalar of the accepted YAML subset is a string;
/// a key with nothing after it and no nested lines is `Null`. A JSON number keeps its
/// source text, which stands for a finite double: converting it is left to the reader.
#[derive(Debug, PartialEq, Eq)]
pub enum Value {
    Null,
    Bool(bool),
    Num(String),
    Str(String),
    List(Vec<Value>),
    Mapping(Vec<Entry>),
}

/// One mapping entry; `start..end` is the key's absolute byte range in the source.
#[derive(Debug, PartialEq, Eq)]
pub struct Entry {
    pub key: String,
    pub start: usize,
    pub end: usize,
    pub value: Value,
}

/// The mathematical form of a [`Value`].
pub enum Tree {
    Null,
    Bool(bool),
    Num(Seq<char>),
    Str(Seq<char>),
    List(Seq<Tree>),
    Mapping(Seq<Keyed>),
}

/// The mathematical form of an [`Entry`].
pub struct Keyed {
    pub key: Seq<char>,
    pub start: int,
    pub end: int,
    pub value: Tree,
}

/// The tree a value stands for.
pub open spec fn tree_of(v: Value) -> Tree
    decreases v,
{
    match v {
        Value::Null => Tree::Null,
        Value::Bool(b) => Tree::Bool(b),
        Value::Num(s) => Tree::Num(s@),
        Value::Str(s) => Tree::Str(s@),
        Value::List(items) => Tree::List(
            Seq::new(
                items@.len(),
                |i: int|
                    if 0 <= i < items@.len() {
                        tree_of(items@[i])
                    } else {
                        Tree::Null
                    },
            ),
        ),
        Value::Mapping(es) => Tree::Mapping(
            Seq::new(
                es@.len(),
                |i: int|
                    if 0 <= i < es@.len() {
                        Keyed {
                            key: es@[i].key@,
                            start: es@[i].start as int,
                            end: es@[i].end as int,
                            value: tree_of(es@[i].value),
                        }
                    } else {
                        Keyed { key: Seq::empty(), start: 0, end: 0, value: Tree::Null }
                    },
            ),
        ),
    }
}

/// The mathematical form of an entry.
pub open spec fn keyed_of(e: Entry) -> Keyed {
    Keyed { key: e.key@, start: e.start as int, end: e.end as int, value: tree_of(e.value) }
}

/// The mathematical form of a list of entries.
pub open spec fn keyed_seq(es: Seq<Entry>) -> Seq<Keyed> {
    es.map_values(|e: Entry| keyed_of(e))
}

/// A mapping built from entries stands for the mapping of their forms.
pub proof fn lemma_mapping_tree(es: Vec<Entry>)
    ensures
        tree_of(Value::Mapping(es)) == Tree::Mapping(keyed_seq(es@)),
{
    assert(tree_of(Value::Mapping(es))->Mapping_0 =~= keyed_seq(es@));
}

/// A list built from values stands for the list of their trees.
pub proof fn lemma_list_tree(items: Vec<Value>)
    ensures
        tree_of(Value::List(items)) == Tree::List(items@.map_values(|v: Value| tree_of(v))),
{
    assert(tree_of(Value::List(items))->List_0 =~= items@.map_values(|v: Value| tree_of(v)));
}

/// No two entries of `es` share a key.
pub open spec fn distinct_keys(es: Seq<Keyed>) -> bool {
    forall|i: int, j: int| 0 <= i < j < es.len() ==> #[trigger] es[i].key != #[trigger] es[j].key
}

/// Every mapping inside `t`, `t` included, has distinct keys.
pub open spec fn keys_unique(t: Tree) -> bool
    decreases t,
{
    match t {
        Tree::Mapping(es) => distinct_keys(es) && forall|i: int|
            0 <= i < es.len() ==> keys_unique(#[trigger] es[i].value),
        Tree::List(items) => forall|i: int| 0 <= i < items.len() ==> keys_unique(#[trigger] items[i]),
        _ => true,
    }
}

/// Every key range inside `t` is ordered and lies within `lo..hi`.
pub open spec fn ranges_within(t: Tree, lo: int, hi: int) -> bool
    decreases t,
{
    match t {
        Tree::Mapping(es) => forall|i: int|
            0 <= i < es.len() ==> lo <= #[trigger] es[i].start <= es[i].end <= hi && ranges_within(
                es[i].value,
                lo,
                hi,
            ),
        Tree::List(items) => forall|i: int|
            0 <= i < items.len() ==> ranges_within(#[trigger] items[i], lo, hi),
        _ => true,
    }
}

/// `t` holds no mapping: scalars and lists of them only.
pub open spec fn flat(t: Tree) -> bool
    decreases t,
{
    match t {
        Tree::Mapping(_) => false,
        Tree::List(items) => forall|i: int| 0 <= i < items.len() ==> flat(#[trigger] items[i]),
        _ => true,
    }
}

/// A tree without mappings has no key to repeat and no range to misplace.
pub proof fn lemma_flat(t: Tree, lo: int, hi: int)
    requires
        flat(t),
    ensures
        keys_unique(t),
        ranges_within(t, lo, hi),
    decreases t,
{
    if let Tree::List(items) = t {
        assert forall|i: int| 0 <= i < items.len() implies keys_unique(#[trigger] items[i])
            && ranges_within(items[i], lo, hi) by {
            lemma_flat(items[i], lo, hi);
        }
    }
}

} // verus!
