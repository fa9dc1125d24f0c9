//! The insertion-ordered maps and sets of `indexmap`, by what they hold.
use crate::label::{labels_of, nats, CodeLabel, LabelSpec};
use crate::node::{ParseNodeKind, ParseNodeShape, ShapeSpec};
use indexmap::{IndexMap, IndexSet};
use std::rc::Rc;
use vstd::prelude::*;

verus! {

/// `indexmap::IndexMap`: a hash map that keeps its entries in the order of insertion.
#[verifier::external_type_specification]
#[verifier::external_body]
#[verifier::reject_recursive_types(K)]
#[verifier::reject_recursive_types(V)]
#[verifier::reject_recursive_types(S)]
pub struct ExIndexMap<K, V, S>(IndexMap<K, V, S>);

/// `indexmap::IndexSet`: a hash set that keeps its items in the order of insertion.
#[verifier::external_type_specification]
#[verifier::external_body]
#[verifier::reject_recursive_types(T)]
#[verifier::reject_recursive_types(S)]
pub struct ExIndexSet<T, S>(IndexSet<T, S>);

/// Whether a list of entries has one with this key.
pub open spec fn has_key<K, V>(m: Seq<(K, V)>, k: K) -> bool {
    exists|i: int| 0 <= i < m.len() && (#[trigger] m[i]).0 == k
}

/// Where a list of entries has one with this key.
pub open spec fn key_at<K, V>(m: Seq<(K, V)>, k: K) -> int {
    choose|i: int| 0 <= i < m.len() && (#[trigger] m[i]).0 == k
}

/// The value under this key.
pub open spec fn value<K, V>(m: Seq<(K, V)>, k: K) -> V {
    m[key_at(m, k)].1
}

/// The entries with `v` under `k`: in place of the entry that has this key, or at the end.
pub open spec fn put<K, V>(m: Seq<(K, V)>, k: K, v: V) -> Seq<(K, V)> {
    if has_key(m, k) {
        m.update(key_at(m, k), (k, v))
    } else {
        m.push((k, v))
    }
}

// Sets of lists of numbers.

/// The items of a set, in order.
pub uninterp spec fn items(s: IndexSet<Vec<usize>>) -> Seq<Seq<usize>>;

/// `IndexSet::new`: a set without items.
#[verifier::external_body]
pub(crate) fn set_new() -> (r: IndexSet<Vec<usize>>)
    ensures
        items(r) == Seq::<Seq<usize>>::empty(),
{
    IndexSet::new()
}

/// `IndexSet::len`: the number of items.
#[verifier::external_body]
pub(crate) fn set_len(s: &IndexSet<Vec<usize>>) -> (r: usize)
    ensures
        r == items(*s).len(),
{
    s.len()
}

/// `IndexSet::get_index`: the item at a position, if there is one. No other item is equal to it.
#[verifier::external_body]
pub(crate) fn set_get(s: &IndexSet<Vec<usize>>, i: usize) -> (r: Option<&Vec<usize>>)
    ensures
        r is Some <==> i < items(*s).len(),
        r matches Some(item) ==> item@ == items(*s)[i as int] && forall|j: int|
            0 <= j < items(*s).len() && j != i ==> #[trigger] items(*s)[j] != item@,
{
    s.get_index(i)
}

/// `IndexSet::get_full`: the position of an item, if the set has it.
#[verifier::external_body]
pub(crate) fn set_find(s: &IndexSet<Vec<usize>>, item: &Vec<usize>) -> (r: Option<usize>)
    ensures
        r is Some <==> items(*s).contains(item@),
        r matches Some(i) ==> i < items(*s).len() && items(*s)[i as int] == item@,
{
    s.get_full(item).map(|(i, _)| i)
}

/// `IndexSet::insert`: the item comes last, unless the set has it already. The result tells
/// whether the item is new.
#[verifier::external_body]
pub(crate) fn set_insert(s: &mut IndexSet<Vec<usize>>, item: Vec<usize>) -> (r: bool)
    ensures
        r == !items(*old(s)).contains(item@),
        items(*final(s)) == (if items(*old(s)).contains(item@) {
            items(*old(s))
        } else {
            items(*old(s)).push(item@)
        }),
{
    s.insert(item)
}

// Fields of a rule: the paths that lead to each.

/// The names of the fields, each with its paths, in order.
pub uninterp spec fn fields(m: IndexMap<String, IndexSet<Vec<usize>>>) -> Seq<
    (Seq<char>, Seq<Seq<usize>>),
>;

/// `IndexMap::new`: no fields.
#[verifier::external_body]
pub(crate) fn fields_new() -> (r: IndexMap<String, IndexSet<Vec<usize>>>)
    ensures
        fields(r) == Seq::<(Seq<char>, Seq<Seq<usize>>)>::empty(),
{
    IndexMap::new()
}

/// `IndexMap::len`: the number of fields.
#[verifier::external_body]
pub(crate) fn fields_len(m: &IndexMap<String, IndexSet<Vec<usize>>>) -> (r: usize)
    ensures
        r == fields(*m).len(),
{
    m.len()
}

/// `IndexMap::get_index`: the field at a position, if there is one. No other has its name.
#[verifier::external_body]
pub(crate) fn fields_get(m: &IndexMap<String, IndexSet<Vec<usize>>>, i: usize) -> (r: Option<
    (&String, &IndexSet<Vec<usize>>),
>)
    ensures
        r is Some <==> i < fields(*m).len(),
        r matches Some((name, paths)) ==> (name@, items(*paths)) == fields(*m)[i as int]
            && forall|j: int|
            0 <= j < fields(*m).len() && j != i ==> (#[trigger] fields(*m)[j]).0 != name@,
{
    m.get_index(i)
}

/// `IndexMap::entry` and `Entry::or_insert_with`: the paths of a field. A field that was not there
/// comes last, and starts without paths.
#[verifier::external_body]
pub(crate) fn fields_entry(m: &mut IndexMap<String, IndexSet<Vec<usize>>>, name: String) -> (r:
    &mut IndexSet<Vec<usize>>)
    ensures
        items(*r) == (if has_key(fields(*old(m)), name@) {
            value(fields(*old(m)), name@)
        } else {
            Seq::empty()
        }),
        fields(*final(m)) == put(fields(*old(m)), name@, items(*final(r))),
{
    m.entry(name).or_insert_with(IndexSet::new)
}

// Labels inside functions.

/// What a label's key stands for.
pub open spec fn key_label(key: (String, Vec<usize>)) -> LabelSpec {
    (key.0@, nats(key.1@))
}

/// The functions, by their labels, each with the labels inside it, in order.
pub uninterp spec fn fn_labels(m: IndexMap<(String, Vec<usize>), Vec<Rc<CodeLabel>>>) -> Seq<
    (LabelSpec, Seq<LabelSpec>),
>;

/// `IndexMap::new`: no functions.
#[verifier::external_body]
pub(crate) fn labels_new() -> (r: IndexMap<(String, Vec<usize>), Vec<Rc<CodeLabel>>>)
    ensures
        fn_labels(r) == Seq::<(LabelSpec, Seq<LabelSpec>)>::empty(),
{
    IndexMap::new()
}

/// `IndexMap::entry` and `Entry::or_insert_with`: the labels inside a function. A function that was
/// not there comes last, and starts without labels. No function is there twice.
#[verifier::external_body]
pub(crate) fn labels_entry(
    m: &mut IndexMap<(String, Vec<usize>), Vec<Rc<CodeLabel>>>,
    key: (String, Vec<usize>),
) -> (r: &mut Vec<Rc<CodeLabel>>)
    ensures
        labels_of(r@) == (if has_key(fn_labels(*old(m)), key_label(key)) {
            value(fn_labels(*old(m)), key_label(key))
        } else {
            Seq::empty()
        }),
        fn_labels(*final(m)) == put(fn_labels(*old(m)), key_label(key), labels_of(final(r)@)),
        distinct_keys(fn_labels(*final(m))),
{
    m.entry(key).or_insert_with(Vec::new)
}

/// `IndexMap::insert`: sets the labels inside a function. A function that was not there comes last.
#[verifier::external_body]
pub(crate) fn labels_insert(
    m: &mut IndexMap<(String, Vec<usize>), Vec<Rc<CodeLabel>>>,
    key: (String, Vec<usize>),
    labels: Vec<Rc<CodeLabel>>,
)
    ensures
        fn_labels(*final(m)) == put(fn_labels(*old(m)), key_label(key), labels_of(labels@)),
{
    m.insert(key, labels);
}

/// `IndexMap::contains_key`: whether a label is that of a function.
#[verifier::external_body]
pub(crate) fn labels_has(
    m: &IndexMap<(String, Vec<usize>), Vec<Rc<CodeLabel>>>,
    key: &(String, Vec<usize>),
) -> (r: bool)
    ensures
        r == has_key(fn_labels(*m), key_label(*key)),
{
    m.contains_key(key)
}

/// `IndexMap::len`: the number of functions.
#[verifier::external_body]
pub(crate) fn labels_len(m: &IndexMap<(String, Vec<usize>), Vec<Rc<CodeLabel>>>) -> (r: usize)
    ensures
        r == fn_labels(*m).len(),
{
    m.len()
}

/// `IndexMap::get_index`: the function at a position and the labels inside it, if there is one.
#[verifier::external_body]
pub(crate) fn labels_get(m: &IndexMap<(String, Vec<usize>), Vec<Rc<CodeLabel>>>, i: usize) -> (r:
    Option<(&(String, Vec<usize>), &Vec<Rc<CodeLabel>>)>)
    ensures
        r is Some <==> i < fn_labels(*m).len(),
        r matches Some((key, labels)) ==> (key_label(*key), labels_of(labels@)) == fn_labels(
            *m,
        )[i as int],
{
    m.get_index(i)
}

// Descriptions of rules, by the codes of the rules.

/// The codes that have a description, each with it, in order.
pub uninterp spec fn descs(m: IndexMap<Vec<usize>, String>) -> Seq<(Seq<usize>, Seq<char>)>;

/// `IndexMap::new`: no descriptions.
#[verifier::external_body]
pub(crate) fn descs_new() -> (r: IndexMap<Vec<usize>, String>)
    ensures
        descs(r) == Seq::<(Seq<usize>, Seq<char>)>::empty(),
{
    IndexMap::new()
}

/// `IndexMap::get`: the description under a code, if there is one.
#[verifier::external_body]
pub(crate) fn descs_get<'a>(m: &'a IndexMap<Vec<usize>, String>, code: &Vec<usize>) -> (r: Option<
    &'a String,
>)
    ensures
        r is Some <==> has_key(descs(*m), code@),
        r matches Some(desc) ==> desc@ == value(descs(*m), code@),
{
    m.get(code)
}

/// `IndexMap::insert`: sets the description under a code.
#[verifier::external_body]
pub(crate) fn descs_insert(m: &mut IndexMap<Vec<usize>, String>, code: Vec<usize>, desc: String)
    ensures
        descs(*final(m)) == put(descs(*old(m)), code@, desc@),
{
    m.insert(code, desc);
}

// Shapes of rules, by the codes of the rules.

/// The codes that have a shape, each with it, in order.
pub uninterp spec fn shapes(m: IndexMap<Vec<usize>, ParseNodeShape<ParseNodeKind>>) -> Seq<
    (Seq<usize>, ShapeSpec),
>;

/// `IndexMap::new`: no shapes.
#[verifier::external_body]
pub(crate) fn shapes_new() -> (r: IndexMap<Vec<usize>, ParseNodeShape<ParseNodeKind>>)
    ensures
        shapes(r) == Seq::<(Seq<usize>, ShapeSpec)>::empty(),
{
    IndexMap::new()
}

/// `IndexMap::get`: the shape under a code, if there is one.
#[verifier::external_body]
pub(crate) fn shapes_get<'a>(
    m: &'a IndexMap<Vec<usize>, ParseNodeShape<ParseNodeKind>>,
    code: &Vec<usize>,
) -> (r: Option<&'a ParseNodeShape<ParseNodeKind>>)
    ensures
        r is Some <==> has_key(shapes(*m), code@),
        r matches Some(shape) ==> shape@ == value(shapes(*m), code@),
{
    m.get(code)
}

/// `IndexMap::insert`: sets the shape under a code.
#[verifier::external_body]
pub(crate) fn shapes_insert(
    m: &mut IndexMap<Vec<usize>, ParseNodeShape<ParseNodeKind>>,
    code: Vec<usize>,
    shape: ParseNodeShape<ParseNodeKind>,
)
    ensures
        shapes(*final(m)) == put(shapes(*old(m)), code@, shape@),
{
    m.insert(code, shape);
}

/// After a `put`, the key has the new value.
pub proof fn put_gives<K, V>(m: Seq<(K, V)>, k: K, v: V)
    ensures
        has_key(put(m, k, v), k),
        value(put(m, k, v), k) == v || !distinct_keys(m),
{
    let p = put(m, k, v);
    if has_key(m, k) {
        assert(p[key_at(m, k)] == (k, v));
        if distinct_keys(m) {
            put_distinct(m, k, v);
            assert(p[key_at(p, k)].0 == k);
        }
    } else {
        assert(p[m.len() as int] == (k, v));
        assert(p[key_at(p, k)].0 == k);
        if key_at(p, k) < m.len() {
            assert(m[key_at(p, k)].0 == k);
        }
    }
}

/// Whether no two entries have the same key.
pub open spec fn distinct_keys<K, V>(m: Seq<(K, V)>) -> bool {
    forall|i: int, j: int|
        0 <= i < m.len() && 0 <= j < m.len() && i != j ==> (#[trigger] m[i]).0 != (
        #[trigger] m[j]).0
}

/// A `put` keeps the keys distinct.
pub proof fn put_distinct<K, V>(m: Seq<(K, V)>, k: K, v: V)
    requires
        distinct_keys(m),
    ensures
        distinct_keys(put(m, k, v)),
{
    let p = put(m, k, v);
    assert forall|i: int, j: int| 0 <= i < p.len() && 0 <= j < p.len() && i != j implies (
    #[trigger] p[i]).0 != (#[trigger] p[j]).0 by {
        if has_key(m, k) {
            assert(p[i].0 == m[i].0);
            assert(p[j].0 == m[j].0);
        } else {
            if i < m.len() {
                assert(m[i].0 == p[i].0);
            }
            if j < m.len() {
                assert(m[j].0 == p[j].0);
            }
        }
    }
}

/// Where the keys are distinct after a `put`, they were before.
pub proof fn put_distinct_before<K, V>(m: Seq<(K, V)>, k: K, v: V)
    requires
        distinct_keys(put(m, k, v)),
    ensures
        distinct_keys(m),
{
    let p = put(m, k, v);
    assert forall|i: int, j: int| 0 <= i < m.len() && 0 <= j < m.len() && i != j implies (
    #[trigger] m[i]).0 != (#[trigger] m[j]).0 by {
        if has_key(m, k) {
            assert(m[key_at(m, k)].0 == k);
        }
        assert(p[i].0 == m[i].0);
        assert(p[j].0 == m[j].0);
    }
}

/// A `put` leaves the other keys as they are.
pub proof fn put_keeps<K, V>(m: Seq<(K, V)>, k: K, v: V, other: K)
    requires
        distinct_keys(m),
        other != k,
    ensures
        has_key(put(m, k, v), other) == has_key(m, other),
        has_key(m, other) ==> value(put(m, k, v), other) == value(m, other),
{
    let p = put(m, k, v);
    put_distinct(m, k, v);
    if has_key(m, other) {
        let at = key_at(m, other);
        assert(m[at].0 == other);
        assert(p[at].0 == other);
        assert(p[at] == m[at]);
        assert(p[key_at(p, other)].0 == other);
    }
    if has_key(p, other) {
        let at = key_at(p, other);
        assert(p[at].0 == other);
        if at < m.len() {
            assert(m[at].0 == other);
        }
    }
}

} // verus!
