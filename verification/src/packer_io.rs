//! Turning item inputs (a shape with a quantity) into items and back, and
//! gathering the results of a packing for display.

use indexmap::IndexMap;
use vstd::prelude::*;
use crate::geometry::{xyz_of, AxisSize, Dimension};
use crate::packer::{Bin, Dimensional, Item, PackResult, Space};

verus! {

/// An insertion-ordered map of the `indexmap` crate.
#[verifier::external_type_specification]
#[verifier::external_body]
#[verifier::reject_recursive_types(K)]
#[verifier::reject_recursive_types(V)]
#[verifier::reject_recursive_types(S)]
pub struct ExIndexMap<K, V, S>(IndexMap<K, V, S>);

/// The entries of a map from shape ids to (position of the first item,
/// number of items), in insertion order.
pub uninterp spec fn group_entries(m: IndexMap<i32, (usize, usize)>) -> Seq<(i32, (usize, usize))>;

/// The position of the entry of key `k` in `e`, if there is one.
pub open spec fn key_position(e: Seq<(i32, (usize, usize))>, k: i32) -> Option<int> {
    if exists|p: int| 0 <= p < e.len() && e[p].0 == k {
        Some(choose|p: int| 0 <= p < e.len() && e[p].0 == k)
    } else {
        None
    }
}

/// `IndexMap::new`: a map with no entries.
#[verifier::external_body]
fn new_group_map() -> (m: IndexMap<i32, (usize, usize)>)
    ensures
        group_entries(m) == Seq::<(i32, (usize, usize))>::empty(),
{
    IndexMap::new()
}

/// `IndexMap::get`: the value of the entry of `key`, if there is one.
#[verifier::external_body]
fn group_map_get(m: &IndexMap<i32, (usize, usize)>, key: i32) -> (r: Option<(usize, usize)>)
    ensures
        r == (match key_position(group_entries(*m), key) {
            Some(p) => Some(group_entries(*m)[p].1),
            None => None,
        }),
{
    m.get(&key).copied()
}

/// `IndexMap::insert`: an existing key keeps its place and takes the new
/// value, returning the old one; a new key goes last.
#[verifier::external_body]
fn group_map_insert(m: &mut IndexMap<i32, (usize, usize)>, key: i32, value: (usize, usize)) -> (r: Option<(usize, usize)>)
    ensures
        match key_position(group_entries(*old(m)), key) {
            Some(p) => {
                &&& group_entries(*final(m)) == group_entries(*old(m)).update(p, (key, value))
                &&& r == Some(group_entries(*old(m))[p].1)
            },
            None => {
                &&& group_entries(*final(m)) == group_entries(*old(m)).push((key, value))
                &&& r is None
            },
        },
{
    m.insert(key, value)
}

/// `IndexMap::len`: the number of entries.
#[verifier::external_body]
fn group_map_len(m: &IndexMap<i32, (usize, usize)>) -> (r: usize)
    ensures
        r == group_entries(*m).len(),
{
    m.len()
}

/// `IndexMap::get_index`: the entry at position `i`, if there is one.
#[verifier::external_body]
fn group_map_get_index(m: &IndexMap<i32, (usize, usize)>, i: usize) -> (r: Option<(i32, (usize, usize))>)
    ensures
        i < group_entries(*m).len() ==> r == Some(group_entries(*m)[i as int]),
        i >= group_entries(*m).len() ==> r is None,
{
    match m.get_index(i) {
        Some((k, v)) => Some((*k, *v)),
        None => None,
    }
}

/// An item as the user gives it: a shape, its lengths and how many items of
/// it there are.
#[derive(Clone, Debug)]
pub struct ItemInput {
    pub shape_id: i32,
    pub name: String,
    pub width: u64,
    pub height: u64,
    pub depth: u64,
    pub quantity: i32,
}

/// How many items a quantity stands for: none when it is not positive.
pub open spec fn copies(quantity: i32) -> nat {
    if quantity > 0 {
        quantity as nat
    } else {
        0
    }
}

/// The item that an input stands for, at the origin, its width, height and
/// depth along their own axes.
pub open spec fn item_of(input: ItemInput) -> Item {
    Item {
        shape_id: input.shape_id,
        name: input.name,
        position_xyz: [0, 0, 0],
        size: [
            Dimension { length: input.width, axis: AxisSize::Width },
            Dimension { length: input.height, axis: AxisSize::Height },
            Dimension { length: input.depth, axis: AxisSize::Depth },
        ],
    }
}

/// The items of the inputs `s`: each input, in order, repeated as many times
/// as its quantity.
pub open spec fn expanded(s: Seq<ItemInput>) -> Seq<Item>
    decreases s.len(),
{
    if s.len() == 0 {
        Seq::empty()
    } else {
        expanded(s.drop_last()) + Seq::new(copies(s.last().quantity), |k: int| item_of(s.last()))
    }
}

/// The number of items that the inputs `s` stand for: the sum of their
/// positive quantities.
pub open spec fn total_copies(s: Seq<ItemInput>) -> int
    decreases s.len(),
{
    if s.len() == 0 {
        0
    } else {
        total_copies(s.drop_last()) + if s.last().quantity > 0 { s.last().quantity as int } else { 0 }
    }
}

/// Item `it` is what input `x` stands for: its shape and name, at the
/// origin, with the input's width, height and depth along their own axes.
pub open spec fn stands_for(it: Item, x: ItemInput) -> bool {
    &&& it.shape_id == x.shape_id
    &&& it.name == x.name
    &&& it.position_xyz == [0u64, 0u64, 0u64]
    &&& it.size[0] == (Dimension { length: x.width, axis: AxisSize::Width })
    &&& it.size[1] == (Dimension { length: x.height, axis: AxisSize::Height })
    &&& it.size[2] == (Dimension { length: x.depth, axis: AxisSize::Depth })
}

/// The position of the input that item `k` of `expanded(s)` stands for.
pub open spec fn source_input(s: Seq<ItemInput>, k: int) -> int
    decreases s.len(),
{
    if s.len() == 0 {
        0
    } else if k < expanded(s.drop_last()).len() {
        source_input(s.drop_last(), k)
    } else {
        s.len() - 1
    }
}

/// Expanding inputs gives one item per unit of positive quantity, each
/// standing for one of the inputs, the items of an earlier input first.
pub proof fn lemma_expanded_items(s: Seq<ItemInput>)
    ensures
        expanded(s).len() == total_copies(s),
        forall|k: int|
            0 <= k < expanded(s).len() ==> {
                &&& 0 <= #[trigger] source_input(s, k) < s.len()
                &&& stands_for(expanded(s)[k], s[source_input(s, k)])
            },
        forall|k1: int, k2: int|
            0 <= k1 <= k2 < expanded(s).len() ==> #[trigger] source_input(s, k1) <= #[trigger] source_input(s, k2),
    decreases s.len(),
{
    if s.len() > 0 {
        let d = s.drop_last();
        lemma_expanded_items(d);
        let e = expanded(s);
        let ed = expanded(d);
        let x = s.last();
        assert forall|k: int| 0 <= k < e.len() implies {
            &&& 0 <= #[trigger] source_input(s, k) < s.len()
            &&& stands_for(e[k], s[source_input(s, k)])
        } by {
            if k < ed.len() {
                assert(e[k] == ed[k]);
                assert(s[source_input(d, k)] == d[source_input(d, k)]);
            } else {
                assert(e[k] == item_of(x));
            }
        }
        assert forall|k1: int, k2: int| 0 <= k1 <= k2 < e.len() implies #[trigger] source_input(s, k1) <= #[trigger] source_input(s, k2) by {
            if k2 < ed.len() {
                assert(source_input(d, k1) <= source_input(d, k2));
            } else if k1 < ed.len() {
                assert(source_input(d, k1) < d.len());
            }
        }
    }
}

/// The number of items of shape `id` that the inputs `s` stand for: the sum
/// of the positive quantities of the inputs of that shape.
pub open spec fn copies_of_shape(s: Seq<ItemInput>, id: i32) -> int
    decreases s.len(),
{
    if s.len() == 0 {
        0
    } else {
        copies_of_shape(s.drop_last(), id) + if s.last().shape_id == id && s.last().quantity > 0 {
            s.last().quantity as int
        } else {
            0
        }
    }
}

/// A run of `c` copies of `x` keeps all of them or none.
proof fn lemma_filter_repeat(x: Item, c: nat, p: spec_fn(Item) -> bool)
    ensures
        Seq::new(c, |k: int| x).filter(p).len() == if p(x) { c as int } else { 0 },
    decreases c,
{
    if c == 0 {
        assert(Seq::new(c, |k: int| x).filter(p) =~= Seq::<Item>::empty()) by {
            reveal(Seq::filter);
        }
    } else {
        let c1 = (c - 1) as nat;
        lemma_filter_repeat(x, c1, p);
        assert(Seq::new(c, |k: int| x) =~= Seq::new(c1, |k: int| x).push(x));
        Seq::new(c1, |k: int| x).lemma_filter_push(x, p);
    }
}

/// Expanding inputs gives, for each shape, as many items as the inputs of
/// that shape have quantity.
pub proof fn lemma_expanded_shape_counts(s: Seq<ItemInput>)
    ensures
        forall|id: i32| #[trigger] copies_of_shape(s, id) == expanded(s).filter(|it: Item| it.shape_id == id).len(),
    decreases s.len(),
{
    if s.len() > 0 {
        let d = s.drop_last();
        lemma_expanded_shape_counts(d);
        let x = s.last();
        let tail = Seq::new(copies(x.quantity), |k: int| item_of(x));
        assert forall|id: i32| #[trigger] copies_of_shape(s, id) == expanded(s).filter(|it: Item| it.shape_id == id).len() by {
            let p = |it: Item| it.shape_id == id;
            assert(copies_of_shape(d, id) == expanded(d).filter(|it: Item| it.shape_id == id).len());
            Seq::filter_distributes_over_add(expanded(d), tail, p);
            assert(expanded(s) == expanded(d) + tail);
            lemma_filter_repeat(item_of(x), copies(x.quantity), p);
            assert(tail =~= Seq::new(copies(x.quantity), |k: int| item_of(x)));
        }
    }
}

/// Turns inputs into items, one per unit of quantity, so that the packer can
/// rotate and move each on its own.
pub fn expand_items(input_items: Vec<ItemInput>) -> (items: Vec<Item>)
    ensures
        items@ == expanded(input_items@),
        items@.len() == total_copies(input_items@),
        forall|k: int|
            0 <= k < items@.len() ==> {
                &&& 0 <= #[trigger] source_input(input_items@, k) < input_items@.len()
                &&& stands_for(items@[k], input_items@[source_input(input_items@, k)])
            },
        forall|k1: int, k2: int|
            0 <= k1 <= k2 < items@.len() ==> #[trigger] source_input(input_items@, k1)
                <= #[trigger] source_input(input_items@, k2),
        forall|id: i32|
            #[trigger] copies_of_shape(input_items@, id) == items@.filter(|it: Item| it.shape_id == id).len(),
{
    let mut items: Vec<Item> = Vec::new();
    let mut i: usize = 0;
    while i < input_items.len()
        invariant
            i <= input_items@.len(),
            items@ == expanded(input_items@.take(i as int)),
        decreases input_items@.len() - i,
    {
        let input_item = &input_items[i];
        let ghost before = items@;
        let mut c: i32 = 0;
        while c < input_item.quantity
            invariant
                0 <= c,
                c <= input_item.quantity || c == 0,
                items@ == before + Seq::new(c as nat, |k: int| item_of(*input_item)),
            decreases input_item.quantity - c,
        {
            items.push(
                Item {
                    shape_id: input_item.shape_id,
                    name: input_item.name.clone(),
                    position_xyz: [0, 0, 0],
                    size: [
                        Dimension { length: input_item.width, axis: AxisSize::Width },
                        Dimension { length: input_item.height, axis: AxisSize::Height },
                        Dimension { length: input_item.depth, axis: AxisSize::Depth },
                    ],
                },
            );
            proof {
                assert(items@.last() == item_of(*input_item));
                assert(items@ =~= before + Seq::new((c + 1) as nat, |k: int| item_of(*input_item)));
            }
            c += 1;
        }
        proof {
            let t = input_items@.take(i + 1);
            assert(t.drop_last() =~= input_items@.take(i as int));
            assert(Seq::new(c as nat, |k: int| item_of(*input_item)) =~= Seq::new(copies(t.last().quantity), |k: int| item_of(t.last())));
        }
        i += 1;
    }
    assert(input_items@.take(input_items@.len() as int) =~= input_items@);
    proof {
        lemma_expanded_items(input_items@);
        lemma_expanded_shape_counts(input_items@);
    }
    items
}

/// The shape ids of `s`, each once, in the order in which they first appear.
pub open spec fn first_ids(s: Seq<Item>) -> Seq<i32>
    decreases s.len(),
{
    if s.len() == 0 {
        Seq::empty()
    } else {
        let f = first_ids(s.drop_last());
        if f.contains(s.last().shape_id) {
            f
        } else {
            f.push(s.last().shape_id)
        }
    }
}

/// The position in `s` of the first item of shape `id` (for an `id` of `first_ids(s)`).
pub open spec fn first_index(s: Seq<Item>, id: i32) -> int
    decreases s.len(),
{
    if s.len() == 0 {
        0
    } else if first_ids(s.drop_last()).contains(id) {
        first_index(s.drop_last(), id)
    } else {
        s.len() - 1
    }
}

/// Items of shape `id`.
pub open spec fn has_shape(id: i32) -> spec_fn(Item) -> bool {
    |it: Item| it.shape_id == id
}

/// The number of items of shape `id` in `s`.
pub open spec fn shape_count(s: Seq<Item>, id: i32) -> nat {
    s.filter(has_shape(id)).len()
}

/// The input that stands for the items of shape `id` in `s`: the name and
/// the lengths (by axis) of the first of them, and their number.
pub open spec fn group_of(s: Seq<Item>, id: i32) -> ItemInput {
    let first = s[first_index(s, id)];
    ItemInput {
        shape_id: id,
        name: first.name,
        width: xyz_of(first.size)[0],
        height: xyz_of(first.size)[1],
        depth: xyz_of(first.size)[2],
        quantity: shape_count(s, id) as i32,
    }
}

/// The items of `s` grouped by shape, in the order in which the shapes first
/// appear.
pub open spec fn grouped(s: Seq<Item>) -> Seq<ItemInput> {
    first_ids(s).map_values(|id: i32| group_of(s, id))
}

/// The map entries that grouping the items `s` builds: each shape, in order
/// of first appearance, with the position of its first item and the number
/// of its items.
pub open spec fn group_entries_of(s: Seq<Item>) -> Seq<(i32, (usize, usize))> {
    first_ids(s).map_values(|id: i32| (id, (first_index(s, id) as usize, shape_count(s, id) as usize)))
}

/// The shape ids of `first_ids` appear once each, each is the shape of
/// the item at its first position, and every item's shape is among them.
proof fn lemma_first_ids(s: Seq<Item>)
    ensures
        first_ids(s).no_duplicates(),
        forall|g: int| 0 <= g < first_ids(s).len() ==> {
            &&& 0 <= #[trigger] first_index(s, first_ids(s)[g]) < s.len()
            &&& s[first_index(s, first_ids(s)[g])].shape_id == first_ids(s)[g]
        },
        forall|k: int| 0 <= k < s.len() ==> first_ids(s).contains(#[trigger] s[k].shape_id),
        first_ids(s).len() <= s.len(),
    decreases s.len(),
{
    if s.len() > 0 {
        let d = s.drop_last();
        lemma_first_ids(d);
        let f = first_ids(d);
        let id = s.last().shape_id;
        assert forall|g: int| 0 <= g < first_ids(s).len() implies {
            &&& 0 <= #[trigger] first_index(s, first_ids(s)[g]) < s.len()
            &&& s[first_index(s, first_ids(s)[g])].shape_id == first_ids(s)[g]
        } by {
            if g < f.len() {
                assert(first_ids(s)[g] == f[g]);
                assert(f.contains(f[g]));
                assert(first_index(s, f[g]) == first_index(d, f[g]));
                assert(s[first_index(d, f[g])] == d[first_index(d, f[g])]);
            } else {
                assert(!f.contains(id));
                assert(first_ids(s)[g] == id);
            }
        }
        assert forall|k: int| 0 <= k < s.len() implies first_ids(s).contains(#[trigger] s[k].shape_id) by {
            if k < d.len() {
                assert(s[k] == d[k]);
                assert(f.contains(d[k].shape_id));
                let q = choose|q: int| 0 <= q < f.len() && f[q] == d[k].shape_id;
                assert(first_ids(s)[q] == f[q]);
            } else {
                if !f.contains(id) {
                    assert(first_ids(s)[f.len() as int] == id);
                } else {
                    let q = choose|q: int| 0 <= q < f.len() && f[q] == id;
                    assert(first_ids(s)[q] == f[q]);
                }
            }
        }
    }
}

/// Grouping the items of one more item.
proof fn lemma_group_entries_push(s: Seq<Item>, x: Item)
    requires
        s.len() < usize::MAX,
    ensures
        ({
            let e = group_entries_of(s);
            let e2 = group_entries_of(s.push(x));
            match key_position(e, x.shape_id) {
                Some(p) => e2 == e.update(p, (x.shape_id, (e[p].1.0, (e[p].1.1 + 1) as usize))),
                None => e2 == e.push((x.shape_id, (s.len() as usize, 1usize))),
            }
        }),
{
    let t = s.push(x);
    assert(t.drop_last() =~= s);
    let id = x.shape_id;
    let f = first_ids(s);
    let e = group_entries_of(s);
    let e2 = group_entries_of(t);
    lemma_first_ids(s);
    assert forall|j: i32| j != id implies #[trigger] shape_count(t, j) == shape_count(s, j) by {
        s.lemma_filter_push(x, has_shape(j));
    }
    s.lemma_filter_push(x, has_shape(id));
    if f.contains(id) {
        let q = choose|q: int| 0 <= q < f.len() && f[q] == id;
        assert(e[q].0 == id);
        let p = key_position(e, id)->Some_0;
        assert(p == q) by {
            assert(e[p].0 == id);
            assert(f[p] == id);
        }
        assert(first_ids(t) == f);
        assert forall|g: int| 0 <= g < f.len() implies first_index(t, #[trigger] f[g]) == first_index(s, f[g]) by {
            assert(f.contains(f[g]));
        }
        assert forall|g: int| 0 <= g < e2.len() implies #[trigger] e2[g] == e.update(p, (id, (e[p].1.0, (e[p].1.1 + 1) as usize)))[g] by {
            assert(first_index(t, f[g]) == first_index(s, f[g]));
            if g == p {
                assert(f[g] == id);
                broadcast use vstd::seq_lib::group_filter_ensures;
                assert(shape_count(s, id) <= s.len());
                assert(shape_count(t, id) == shape_count(s, id) + 1);
            } else {
                assert(f[g] != id) by {
                    assert(f.no_duplicates());
                }
                assert(shape_count(t, f[g]) == shape_count(s, f[g]));
            }
        }
        assert(e2 =~= e.update(p, (id, (e[p].1.0, (e[p].1.1 + 1) as usize))));
    } else {
        assert forall|p: int| 0 <= p < e.len() implies e[p].0 != id by {
            assert(f[p] == e[p].0);
        }
        assert(key_position(e, id) is None);
        assert(s.filter(has_shape(id)).len() == 0) by {
            if s.filter(has_shape(id)).len() > 0 {
                let y = s.filter(has_shape(id))[0];
                assert(s.filter(has_shape(id)).contains(y));
                s.lemma_filter_contains_rev(has_shape(id), y);
                s.lemma_filter_pred(has_shape(id), 0);
                let k = choose|k: int| 0 <= k < s.len() && s[k] == y;
                assert(f.contains(s[k].shape_id));
                assert(false);
            }
        }
        assert(e2 =~= e.push((id, (s.len() as usize, 1usize))));
    }
}

/// Groups items by shape into inputs, the shapes in the order in which they
/// first appear: each group takes the name and the lengths (by axis) of its
/// first item, and the number of its items as its quantity. The positions and
/// rotations of the items are not kept.
pub fn group_items(items: &Vec<Item>) -> (r: Vec<ItemInput>)
    ensures
        r@ == grouped(items@),
        counted_by_shape(r@, items@),
        described_by_first_item(r@, items@),
{
    let mut items_map = new_group_map();
    let mut i: usize = 0;
    proof {
        assert(items@.take(0) =~= Seq::<Item>::empty());
        assert(group_entries_of(items@.take(0)) =~= Seq::empty());
    }
    while i < items.len()
        invariant
            i <= items@.len(),
            group_entries(items_map) == group_entries_of(items@.take(i as int)),
        decreases items@.len() - i,
    {
        let id = items[i].shape_id;
        let ghost t = items@.take(i as int);
        proof {
            lemma_group_entries_push(t, items@[i as int]);
            assert(items@.take(i + 1) =~= t.push(items@[i as int]));
            lemma_first_ids(t);
            broadcast use vstd::seq_lib::group_filter_ensures;
            let e = group_entries_of(t);
            if let Some(p) = key_position(e, id) {
                assert(e[p].0 == id);
                assert(shape_count(t, first_ids(t)[p]) <= t.len());
            }
        }
        match group_map_get(&items_map, id) {
            Some((first, count)) => {
                group_map_insert(&mut items_map, id, (first, count + 1));
            },
            None => {
                group_map_insert(&mut items_map, id, (i, 1));
            },
        }
        i += 1;
    }
    proof {
        assert(items@.take(items@.len() as int) =~= items@);
        lemma_first_ids(items@);
        broadcast use vstd::seq_lib::group_filter_ensures;
    }
    let ghost s = items@;
    let len = items.len();
    let n = group_map_len(&items_map);
    let mut groups: Vec<ItemInput> = Vec::new();
    let mut g: usize = 0;
    while g < n
        invariant
            s == items@,
            len == s.len(),
            n == first_ids(s).len(),
            g <= n,
            group_entries(items_map) == group_entries_of(s),
            groups@ == grouped(s).take(g as int),
            forall|h: int| 0 <= h < first_ids(s).len() ==> {
                &&& 0 <= #[trigger] first_index(s, first_ids(s)[h]) < s.len()
                &&& s[first_index(s, first_ids(s)[h])].shape_id == first_ids(s)[h]
            },
        decreases n - g,
    {
        let (id, (first, count)) = group_map_get_index(&items_map, g).unwrap();
        let item = &items[first];
        let size = item.size_xyz();
        proof {
            broadcast use vstd::seq_lib::group_filter_ensures;
            assert(shape_count(s, id) <= s.len());
        }
        groups.push(
            ItemInput {
                shape_id: id,
                name: item.name.clone(),
                width: size[0],
                height: size[1],
                depth: size[2],
                quantity: count as i32,
            },
        );
        proof {
            let f = first_ids(s);
            assert(group_entries_of(s)[g as int] == (id, (first, count)));
            assert(0 <= first_index(s, f[g as int]) < s.len());
            assert(groups@ =~= grouped(s).take(g + 1));
        }
        g += 1;
    }
    assert(grouped(s).take(n as int) =~= grouped(s));
    proof {
        lemma_grouped_quantities(s);
        lemma_grouped_descriptions(s);
    }
    groups
}

/// Which answer to build for the interface.
#[derive(Clone, Copy, Debug, PartialEq, Eq, Structural)]
pub enum ResponseType {
    /// The result of a packing.
    PackResult,
    /// The inputs loaded from a file, and the result of packing them.
    LoadResult,
}

/// A placed item, for display: its position and its lengths by axis.
#[derive(Clone, Debug)]
pub struct ItemOutput {
    pub shape_id: i32,
    pub name: String,
    pub x: u64,
    pub y: u64,
    pub z: u64,
    pub width: u64,
    pub height: u64,
    pub depth: u64,
}

/// A free space, for display: its position and its lengths by axis.
#[derive(Clone, Copy, Debug)]
pub struct SpaceOutput {
    pub x: u64,
    pub y: u64,
    pub z: u64,
    pub width: u64,
    pub height: u64,
    pub depth: u64,
}

/// The result of a packing, for display.
#[derive(Clone, Debug)]
pub struct PackingDataOutput {
    pub bin: Bin,
    pub item_pos: Vec<ItemOutput>,
    pub free_space_pos: Vec<SpaceOutput>,
    pub placed_items: Vec<ItemInput>,
    pub unpacked_items: Vec<ItemInput>,
}

/// How a placed item is displayed.
pub open spec fn item_output(it: Item) -> ItemOutput {
    ItemOutput {
        shape_id: it.shape_id,
        name: it.name,
        x: it.position_xyz[0],
        y: it.position_xyz[1],
        z: it.position_xyz[2],
        width: xyz_of(it.size)[0],
        height: xyz_of(it.size)[1],
        depth: xyz_of(it.size)[2],
    }
}

/// How a free space is displayed.
pub open spec fn space_output(s: Space) -> SpaceOutput {
    SpaceOutput {
        x: s.position_xyz[0],
        y: s.position_xyz[1],
        z: s.position_xyz[2],
        width: xyz_of(s.size)[0],
        height: xyz_of(s.size)[1],
        depth: xyz_of(s.size)[2],
    }
}

/// The first input of shape `id` in `inputs`, if there is one.
pub open spec fn first_input_with(inputs: Seq<ItemInput>, id: i32) -> Option<ItemInput>
    decreases inputs.len(),
{
    if inputs.len() == 0 {
        None
    } else if inputs[0].shape_id == id {
        Some(inputs[0])
    } else {
        first_input_with(inputs.drop_first(), id)
    }
}

/// Group `g` with the lengths of the first input of its shape, if there is
/// one: packing may have rotated the items.
pub open spec fn restored(g: ItemInput, inputs: Seq<ItemInput>) -> ItemInput {
    match first_input_with(inputs, g.shape_id) {
        Some(input) => ItemInput { width: input.width, height: input.height, depth: input.depth, ..g },
        None => g,
    }
}

/// The first input of shape `id`, if there is one.
fn find_input(inputs: &Vec<ItemInput>, id: i32) -> (r: Option<&ItemInput>)
    ensures
        r is None <==> first_input_with(inputs@, id) is None,
        r matches Some(x) ==> first_input_with(inputs@, id) == Some(*x),
{
    let mut k: usize = 0;
    assert(inputs@.skip(0) =~= inputs@);
    while k < inputs.len()
        invariant
            k <= inputs@.len(),
            first_input_with(inputs@, id) == first_input_with(inputs@.skip(k as int), id),
        decreases inputs@.len() - k,
    {
        proof {
            assert(inputs@.skip(k as int).drop_first() =~= inputs@.skip(k + 1));
        }
        if inputs[k].shape_id == id {
            return Some(&inputs[k]);
        }
        k += 1;
    }
    None
}

/// `groups` has one entry per shape of `items`, in the order in which the
/// shapes first appear, and the quantity of each entry is the number of items
/// of its shape.
pub open spec fn counted_by_shape(groups: Seq<ItemInput>, items: Seq<Item>) -> bool {
    &&& groups.len() == first_ids(items).len()
    &&& forall|g: int|
        0 <= g < groups.len() ==> {
            &&& #[trigger] groups[g].shape_id == first_ids(items)[g]
            &&& groups[g].quantity == items.filter(|it: Item| it.shape_id == groups[g].shape_id).len() as i32
        }
}

/// Grouping items by shape counts, for each shape, its items.
pub proof fn lemma_grouped_quantities(items: Seq<Item>)
    ensures
        counted_by_shape(grouped(items), items),
{
    let gs = grouped(items);
    assert forall|g: int| 0 <= g < gs.len() implies {
        &&& #[trigger] gs[g].shape_id == first_ids(items)[g]
        &&& gs[g].quantity == items.filter(|it: Item| it.shape_id == gs[g].shape_id).len() as i32
    } by {
        let id = first_ids(items)[g];
        assert(has_shape(id) =~= (|it: Item| it.shape_id == id));
    }
}

/// The placed groups reported for display count, for each shape, the placed
/// items of that shape, whatever the inputs said: only the lengths come from
/// the inputs.
pub proof fn lemma_reported_quantities(placed: Seq<Item>, inputs: Seq<ItemInput>)
    ensures
        counted_by_shape(grouped(placed).map_values(|g: ItemInput| restored(g, inputs)), placed),
{
    lemma_grouped_quantities(placed);
    let gs = grouped(placed);
    let out = gs.map_values(|g: ItemInput| restored(g, inputs));
    assert forall|g: int| 0 <= g < out.len() implies {
        &&& #[trigger] out[g].shape_id == first_ids(placed)[g]
        &&& out[g].quantity == placed.filter(|it: Item| it.shape_id == out[g].shape_id).len() as i32
    } by {
        assert(out[g].shape_id == gs[g].shape_id);
        assert(out[g].quantity == gs[g].quantity);
    }
}

/// Each placed item and each free space is reported at its own position and
/// with its own lengths: x, y and z are its coordinates along the width, the
/// height and the depth, and width, height and depth its lengths along them.
pub proof fn lemma_reported_positions(placed: Seq<Item>, free: Seq<Space>)
    ensures
        forall|k: int|
            0 <= k < placed.len() ==> {
                &&& #[trigger] item_output(placed[k]).x == placed[k].position_xyz[0]
                &&& item_output(placed[k]).y == placed[k].position_xyz[1]
                &&& item_output(placed[k]).z == placed[k].position_xyz[2]
                &&& item_output(placed[k]).shape_id == placed[k].shape_id
                &&& item_output(placed[k]).name == placed[k].name
                &&& item_output(placed[k]).width == xyz_of(placed[k].size)[0]
                &&& item_output(placed[k]).height == xyz_of(placed[k].size)[1]
                &&& item_output(placed[k]).depth == xyz_of(placed[k].size)[2]
            },
        forall|k: int|
            0 <= k < free.len() ==> {
                &&& #[trigger] space_output(free[k]).x == free[k].position_xyz[0]
                &&& space_output(free[k]).y == free[k].position_xyz[1]
                &&& space_output(free[k]).z == free[k].position_xyz[2]
                &&& space_output(free[k]).width == xyz_of(free[k].size)[0]
                &&& space_output(free[k]).height == xyz_of(free[k].size)[1]
                &&& space_output(free[k]).depth == xyz_of(free[k].size)[2]
            },
{
}

/// `k` is the position in `items` of the first item of shape `id`.
pub open spec fn first_of_shape(items: Seq<Item>, id: i32, k: int) -> bool {
    &&& 0 <= k < items.len()
    &&& items[k].shape_id == id
    &&& forall|j: int| 0 <= j < k ==> #[trigger] items[j].shape_id != id
}

/// `k` is the position in `inputs` of the first input of shape `id`.
pub open spec fn first_input_of_shape(inputs: Seq<ItemInput>, id: i32, k: int) -> bool {
    &&& 0 <= k < inputs.len()
    &&& inputs[k].shape_id == id
    &&& forall|j: int| 0 <= j < k ==> #[trigger] inputs[j].shape_id != id
}

/// Group `grp` takes its name, and its width, height and depth (by axis),
/// from the item at `k`.
pub open spec fn described_by_item(grp: ItemInput, items: Seq<Item>, k: int) -> bool {
    &&& grp.name == items[k].name
    &&& grp.width == xyz_of(items[k].size)[0]
    &&& grp.height == xyz_of(items[k].size)[1]
    &&& grp.depth == xyz_of(items[k].size)[2]
}

/// Each group of `groups` takes its name, and its width, height and depth
/// (by axis), from the first item of its shape in `items`.
pub open spec fn described_by_first_item(groups: Seq<ItemInput>, items: Seq<Item>) -> bool {
    forall|g: int, k: int|
        #![trigger first_of_shape(items, groups[g].shape_id, k)]
        0 <= g < groups.len() && first_of_shape(items, groups[g].shape_id, k) ==> described_by_item(
            groups[g],
            items,
            k,
        )
}

/// Group `grp` takes its name from the item at `k`, and its width, height and
/// depth from the first input of its shape, when there is one, else from
/// that item.
pub open spec fn described_by_input(grp: ItemInput, items: Seq<Item>, inputs: Seq<ItemInput>, k: int) -> bool {
    &&& grp.name == items[k].name
    &&& forall|i: int|
        #[trigger] first_input_of_shape(inputs, grp.shape_id, i) ==> {
            &&& grp.width == inputs[i].width
            &&& grp.height == inputs[i].height
            &&& grp.depth == inputs[i].depth
        }
    &&& (forall|i: int| 0 <= i < inputs.len() ==> #[trigger] inputs[i].shape_id != grp.shape_id) ==> {
        &&& grp.width == xyz_of(items[k].size)[0]
        &&& grp.height == xyz_of(items[k].size)[1]
        &&& grp.depth == xyz_of(items[k].size)[2]
    }
}

/// Each group of `groups` takes its name from the first item of its shape in
/// `items`, and its width, height and depth from the first input of its
/// shape, when there is one, else from that first item.
pub open spec fn described_by_first_input(groups: Seq<ItemInput>, items: Seq<Item>, inputs: Seq<ItemInput>) -> bool {
    forall|g: int, k: int|
        #![trigger first_of_shape(items, groups[g].shape_id, k)]
        0 <= g < groups.len() && first_of_shape(items, groups[g].shape_id, k) ==> described_by_input(
            groups[g],
            items,
            inputs,
            k,
        )
}

/// The position of the first item of a shape comes first among the items of
/// that shape.
proof fn lemma_first_index_first(s: Seq<Item>, id: i32)
    requires
        first_ids(s).contains(id),
    ensures
        first_of_shape(s, id, first_index(s, id)),
    decreases s.len(),
{
    lemma_first_ids(s);
    let d = s.drop_last();
    if s.len() > 0 {
        lemma_first_ids(d);
        if first_ids(d).contains(id) {
            lemma_first_index_first(d, id);
            assert forall|j: int| 0 <= j < first_index(s, id) implies #[trigger] s[j].shape_id != id by {
                assert(s[j] == d[j]);
            }
        } else {
            assert(first_ids(s) == first_ids(d).push(s.last().shape_id));
            assert(first_ids(s).last() == s.last().shape_id);
            assert(s.last().shape_id == id) by {
                let q = choose|q: int| 0 <= q < first_ids(s).len() && first_ids(s)[q] == id;
                if q < first_ids(d).len() {
                    assert(first_ids(d)[q] == id);
                }
            }
            assert forall|j: int| 0 <= j < s.len() - 1 implies #[trigger] s[j].shape_id != id by {
                assert(s[j] == d[j]);
                assert(first_ids(d).contains(d[j].shape_id));
            }
        }
    }
}

/// The first input of a shape is the first of the inputs with that shape, if any.
proof fn lemma_first_input_with(inputs: Seq<ItemInput>, id: i32)
    ensures
        first_input_with(inputs, id) matches Some(x) ==> exists|i: int|
            first_input_of_shape(inputs, id, i) && x == inputs[i],
        first_input_with(inputs, id) is None ==> forall|i: int|
            0 <= i < inputs.len() ==> #[trigger] inputs[i].shape_id != id,
    decreases inputs.len(),
{
    if inputs.len() > 0 && inputs[0].shape_id != id {
        let t = inputs.drop_first();
        lemma_first_input_with(t, id);
        if let Some(x) = first_input_with(t, id) {
            let i = choose|i: int| first_input_of_shape(t, id, i) && x == t[i];
            assert forall|j: int| 0 <= j < i + 1 implies #[trigger] inputs[j].shape_id != id by {
                if j > 0 {
                    assert(inputs[j] == t[j - 1]);
                }
            }
            assert(first_input_of_shape(inputs, id, i + 1));
        } else {
            assert forall|i: int| 0 <= i < inputs.len() implies #[trigger] inputs[i].shape_id != id by {
                if i > 0 {
                    assert(inputs[i] == t[i - 1]);
                }
            }
        }
    } else if inputs.len() > 0 {
        assert(first_input_of_shape(inputs, id, 0));
    }
}

/// Only one item of a shape comes first.
proof fn lemma_first_of_shape_unique(items: Seq<Item>, id: i32, k1: int, k2: int)
    requires
        first_of_shape(items, id, k1),
        first_of_shape(items, id, k2),
    ensures
        k1 == k2,
{
    if k1 < k2 {
        assert(items[k1].shape_id != id);
    } else if k2 < k1 {
        assert(items[k2].shape_id != id);
    }
}

/// Only one input of a shape comes first.
proof fn lemma_first_input_unique(inputs: Seq<ItemInput>, id: i32, i1: int, i2: int)
    requires
        first_input_of_shape(inputs, id, i1),
        first_input_of_shape(inputs, id, i2),
    ensures
        i1 == i2,
{
    if i1 < i2 {
        assert(inputs[i1].shape_id != id);
    } else if i2 < i1 {
        assert(inputs[i2].shape_id != id);
    }
}

/// Grouping items by shape describes each group by the first item of its shape.
pub proof fn lemma_grouped_descriptions(items: Seq<Item>)
    ensures
        described_by_first_item(grouped(items), items),
{
    let gs = grouped(items);
    assert forall|g: int, k: int|
        #![trigger first_of_shape(items, gs[g].shape_id, k)]
        0 <= g < gs.len() && first_of_shape(items, gs[g].shape_id, k) implies described_by_item(gs[g], items, k) by {
        let id = first_ids(items)[g];
        assert(first_ids(items).contains(id));
        lemma_first_index_first(items, id);
        assert(gs[g].shape_id == id);
        lemma_first_of_shape_unique(items, id, k, first_index(items, id));
    }
}

/// The placed groups reported for display are named after the first placed
/// item of their shape, and take their lengths from the first input of
/// their shape, as given before any rotation, when there is one.
pub proof fn lemma_reported_descriptions(placed: Seq<Item>, inputs: Seq<ItemInput>)
    ensures
        described_by_first_input(grouped(placed).map_values(|g: ItemInput| restored(g, inputs)), placed, inputs),
{
    lemma_grouped_descriptions(placed);
    let gs = grouped(placed);
    let out = gs.map_values(|g: ItemInput| restored(g, inputs));
    assert forall|g: int, k: int|
        #![trigger first_of_shape(placed, out[g].shape_id, k)]
        0 <= g < out.len() && first_of_shape(placed, out[g].shape_id, k) implies described_by_input(out[g], placed, inputs, k) by {
        let id = gs[g].shape_id;
        assert(out[g] == restored(gs[g], inputs));
        assert(first_of_shape(placed, gs[g].shape_id, k));
        assert(described_by_item(gs[g], placed, k));
        lemma_first_input_with(inputs, id);
        assert forall|i: int| #[trigger] first_input_of_shape(inputs, out[g].shape_id, i) implies {
            &&& out[g].width == inputs[i].width
            &&& out[g].height == inputs[i].height
            &&& out[g].depth == inputs[i].depth
        } by {
            if let Some(x) = first_input_with(inputs, id) {
                let i2 = choose|i2: int| first_input_of_shape(inputs, id, i2) && x == inputs[i2];
                lemma_first_input_unique(inputs, id, i, i2);
            } else {
                assert(inputs[i].shape_id != id);
            }
        }
        if forall|i: int| 0 <= i < inputs.len() ==> #[trigger] inputs[i].shape_id != id {
            if let Some(x) = first_input_with(inputs, id) {
                let i2 = choose|i2: int| first_input_of_shape(inputs, id, i2) && x == inputs[i2];
                assert(inputs[i2].shape_id != id);
            }
        }
    }
}

/// Gathers the result of a packing for display: the placed items grouped by
/// shape with the lengths of their inputs (packing may have rotated them),
/// the unplaced items grouped by shape, and the position and lengths of each
/// placed item and each free space.
pub fn process_results_to_output(result: PackResult, inputs: Vec<ItemInput>) -> (r: PackingDataOutput)
    ensures
        r.bin == result.bin,
        r.placed_items@ == grouped(result.placed@).map_values(|g: ItemInput| restored(g, inputs@)),
        r.unpacked_items@ == grouped(result.unplaced@),
        r.item_pos@ == result.placed@.map_values(|it: Item| item_output(it)),
        r.free_space_pos@ == result.free_spaces@.map_values(|s: Space| space_output(s)),
        counted_by_shape(r.placed_items@, result.placed@),
        counted_by_shape(r.unpacked_items@, result.unplaced@),
        described_by_first_input(r.placed_items@, result.placed@, inputs@),
        described_by_first_item(r.unpacked_items@, result.unplaced@),
        r.item_pos@.len() == result.placed@.len(),
        forall|k: int|
            0 <= k < r.item_pos@.len() ==> {
                &&& #[trigger] r.item_pos@[k].x == result.placed@[k].position_xyz[0]
                &&& r.item_pos@[k].y == result.placed@[k].position_xyz[1]
                &&& r.item_pos@[k].z == result.placed@[k].position_xyz[2]
                &&& r.item_pos@[k].shape_id == result.placed@[k].shape_id
                &&& r.item_pos@[k].name == result.placed@[k].name
                &&& r.item_pos@[k].width == xyz_of(result.placed@[k].size)[0]
                &&& r.item_pos@[k].height == xyz_of(result.placed@[k].size)[1]
                &&& r.item_pos@[k].depth == xyz_of(result.placed@[k].size)[2]
            },
        r.free_space_pos@.len() == result.free_spaces@.len(),
        forall|k: int|
            0 <= k < r.free_space_pos@.len() ==> {
                &&& #[trigger] r.free_space_pos@[k].x == result.free_spaces@[k].position_xyz[0]
                &&& r.free_space_pos@[k].y == result.free_spaces@[k].position_xyz[1]
                &&& r.free_space_pos@[k].z == result.free_spaces@[k].position_xyz[2]
                &&& r.free_space_pos@[k].width == xyz_of(result.free_spaces@[k].size)[0]
                &&& r.free_space_pos@[k].height == xyz_of(result.free_spaces@[k].size)[1]
                &&& r.free_space_pos@[k].depth == xyz_of(result.free_spaces@[k].size)[2]
            },
{
    // Restore the original lengths of the placed items, since packing may
    // have rotated them.
    let groups = group_items(&result.placed);
    let mut placed_items: Vec<ItemInput> = Vec::new();
    let mut g: usize = 0;
    while g < groups.len()
        invariant
            g <= groups@.len(),
            placed_items@ == groups@.take(g as int).map_values(|x: ItemInput| restored(x, inputs@)),
        decreases groups@.len() - g,
    {
        let item = &groups[g];
        let restored_item = match find_input(&inputs, item.shape_id) {
            Some(input) => ItemInput {
                shape_id: item.shape_id,
                name: item.name.clone(),
                width: input.width,
                height: input.height,
                depth: input.depth,
                quantity: item.quantity,
            },
            None => ItemInput {
                shape_id: item.shape_id,
                name: item.name.clone(),
                width: item.width,
                height: item.height,
                depth: item.depth,
                quantity: item.quantity,
            },
        };
        placed_items.push(restored_item);
        proof {
            assert(placed_items@ =~= groups@.take(g + 1).map_values(|x: ItemInput| restored(x, inputs@)));
        }
        g += 1;
    }
    proof {
        assert(groups@.take(groups@.len() as int) =~= groups@);
    }
    let unpacked_items = group_items(&result.unplaced);
    let mut item_pos: Vec<ItemOutput> = Vec::new();
    let mut k: usize = 0;
    while k < result.placed.len()
        invariant
            k <= result.placed@.len(),
            item_pos@ == result.placed@.take(k as int).map_values(|it: Item| item_output(it)),
        decreases result.placed@.len() - k,
    {
        let item = &result.placed[k];
        let size = item.size_xyz();
        item_pos.push(
            ItemOutput {
                shape_id: item.shape_id,
                name: item.name.clone(),
                x: item.position_xyz[0],
                y: item.position_xyz[1],
                z: item.position_xyz[2],
                width: size[0],
                height: size[1],
                depth: size[2],
            },
        );
        proof {
            assert(item_pos@ =~= result.placed@.take(k + 1).map_values(|it: Item| item_output(it)));
        }
        k += 1;
    }
    let mut free_space_pos: Vec<SpaceOutput> = Vec::new();
    let mut k: usize = 0;
    while k < result.free_spaces.len()
        invariant
            k <= result.free_spaces@.len(),
            free_space_pos@ == result.free_spaces@.take(k as int).map_values(|s: Space| space_output(s)),
        decreases result.free_spaces@.len() - k,
    {
        let space = &result.free_spaces[k];
        let xyz = space.size_xyz();
        free_space_pos.push(
            SpaceOutput {
                x: space.position_xyz[0],
                y: space.position_xyz[1],
                z: space.position_xyz[2],
                width: xyz[0],
                height: xyz[1],
                depth: xyz[2],
            },
        );
        proof {
            assert(free_space_pos@ =~= result.free_spaces@.take(k + 1).map_values(|s: Space| space_output(s)));
        }
        k += 1;
    }
    proof {
        assert(result.placed@.take(result.placed@.len() as int) =~= result.placed@);
        assert(result.free_spaces@.take(result.free_spaces@.len() as int) =~= result.free_spaces@);
    }
    proof {
        lemma_reported_quantities(result.placed@, inputs@);
        lemma_reported_descriptions(result.placed@, inputs@);
        lemma_grouped_descriptions(result.unplaced@);
        lemma_grouped_quantities(result.unplaced@);
        lemma_reported_positions(result.placed@, result.free_spaces@);
    }
    PackingDataOutput {
        bin: result.bin,
        item_pos,
        free_space_pos,
        placed_items,
        unpacked_items,
    }
}

/// The shape ids of the inputs `s` are pairwise different.
pub open spec fn distinct_shapes(s: Seq<ItemInput>) -> bool {
    forall|i: int, j: int| 0 <= i < j < s.len() ==> #[trigger] s[i].shape_id != #[trigger] s[j].shape_id
}

/// Every input of `s` stands for at least one item.
pub open spec fn all_present(s: Seq<ItemInput>) -> bool {
    forall|i: int| 0 <= i < s.len() ==> #[trigger] s[i].quantity > 0
}

/// Appending `k` copies of an item of a new shape to `a` adds that shape
/// last, at the position where the copies start, counted `k` times, and
/// leaves the other shapes as they were.
proof fn lemma_append_copies(a: Seq<Item>, x: Item, k: nat)
    requires
        k >= 1,
        !first_ids(a).contains(x.shape_id),
        shape_count(a, x.shape_id) == 0,
    ensures
        ({
            let b = a + Seq::new(k, |j: int| x);
            &&& first_ids(b) == first_ids(a).push(x.shape_id)
            &&& first_index(b, x.shape_id) == a.len()
            &&& forall|id: i32| #[trigger] first_ids(a).contains(id) ==> first_index(b, id) == first_index(a, id)
            &&& shape_count(b, x.shape_id) == k
            &&& forall|id: i32| id != x.shape_id ==> #[trigger] shape_count(b, id) == shape_count(a, id)
        }),
    decreases k,
{
    let b = a + Seq::new(k, |j: int| x);
    let c = a + Seq::new((k - 1) as nat, |j: int| x);
    assert(b.drop_last() =~= c);
    assert(b =~= c.push(x));
    assert forall|id: i32| id != x.shape_id implies #[trigger] shape_count(b, id) == shape_count(c, id) by {
        c.lemma_filter_push(x, has_shape(id));
    }
    c.lemma_filter_push(x, has_shape(x.shape_id));
    if k == 1 {
        assert(c =~= a);
    } else {
        lemma_append_copies(a, x, (k - 1) as nat);
        assert(first_ids(c).contains(x.shape_id)) by {
            assert(first_ids(c)[first_ids(a).len() as int] == x.shape_id);
        }
        assert forall|id: i32| #[trigger] first_ids(a).contains(id) implies first_ids(c).contains(id) by {
            let q = choose|q: int| 0 <= q < first_ids(a).len() && first_ids(a)[q] == id;
            assert(first_ids(c)[q] == id);
        }
    }
}

/// The items of inputs of different shapes, each standing for at least one
/// item, show the shapes in the order of the inputs; the first item of each
/// shape is the item its input stands for, and the shape counts as many
/// items as its input's quantity.
proof fn lemma_expanded_shapes(s: Seq<ItemInput>)
    requires
        distinct_shapes(s),
        all_present(s),
    ensures
        first_ids(expanded(s)) == s.map_values(|x: ItemInput| x.shape_id),
        forall|g: int| 0 <= g < s.len() ==> {
            &&& 0 <= #[trigger] first_index(expanded(s), s[g].shape_id) < expanded(s).len()
            &&& expanded(s)[first_index(expanded(s), s[g].shape_id)] == item_of(s[g])
            &&& shape_count(expanded(s), s[g].shape_id) == s[g].quantity
        },
        forall|id: i32|
            !s.map_values(|x: ItemInput| x.shape_id).contains(id) ==> #[trigger] shape_count(
                expanded(s),
                id,
            ) == 0,
    decreases s.len(),
{
    if s.len() == 0 {
        assert(first_ids(expanded(s)) =~= s.map_values(|x: ItemInput| x.shape_id));
        assert forall|id: i32| #[trigger] shape_count(expanded(s), id) == 0 by {
            assert(expanded(s).filter(has_shape(id)) =~= Seq::<Item>::empty()) by {
                reveal(Seq::filter);
            }
        }
    } else {
        let d = s.drop_last();
        let x = s.last();
        let ids = s.map_values(|y: ItemInput| y.shape_id);
        let dids = d.map_values(|y: ItemInput| y.shape_id);
        assert(ids =~= dids.push(x.shape_id));
        lemma_expanded_shapes(d);
        let a = expanded(d);
        assert(!dids.contains(x.shape_id)) by {
            if dids.contains(x.shape_id) {
                let q = choose|q: int| 0 <= q < dids.len() && dids[q] == x.shape_id;
                assert(s[q].shape_id != s[s.len() - 1].shape_id);
            }
        }
        lemma_append_copies(a, item_of(x), copies(x.quantity));
        let b = expanded(s);
        assert(b =~= a + Seq::new(copies(x.quantity), |j: int| item_of(x)));
        assert forall|g: int| 0 <= g < s.len() implies {
            &&& 0 <= #[trigger] first_index(expanded(s), s[g].shape_id) < expanded(s).len()
            &&& expanded(s)[first_index(expanded(s), s[g].shape_id)] == item_of(s[g])
            &&& shape_count(expanded(s), s[g].shape_id) == s[g].quantity
        } by {
            if g < d.len() {
                assert(s[g] == d[g]);
                assert(dids[g] == d[g].shape_id);
                assert(first_ids(a).contains(d[g].shape_id));
                assert(s[g].shape_id != x.shape_id);
            }
        }
        assert forall|id: i32| !ids.contains(id) implies #[trigger] shape_count(expanded(s), id) == 0 by {
            assert(id != x.shape_id) by {
                assert(ids[s.len() - 1] == x.shape_id);
            }
            if dids.contains(id) {
                let q = choose|q: int| 0 <= q < dids.len() && dids[q] == id;
                assert(ids[q] == id);
            }
        }
    }
}

/// Grouping the items that inputs stand for gives the inputs back, when
/// the inputs are of different shapes and each stands for at least one item:
/// saving the items of a packing and loading them again loses nothing.
pub proof fn lemma_group_expanded(s: Seq<ItemInput>)
    requires
        distinct_shapes(s),
        all_present(s),
    ensures
        grouped(expanded(s)) == s,
{
    lemma_expanded_shapes(s);
    let e = expanded(s);
    assert forall|g: int| 0 <= g < s.len() implies #[trigger] grouped(e)[g] == s[g] by {
        assert(first_ids(e)[g] == s[g].shape_id);
        let it = item_of(s[g]);
        assert(xyz_of(it.size) =~= seq![s[g].width, s[g].height, s[g].depth]);
    }
    assert(grouped(e) =~= s);
}

/// The sum of the quantities of the inputs `g`.
pub open spec fn total_quantity(g: Seq<ItemInput>) -> int
    decreases g.len(),
{
    if g.len() == 0 {
        0
    } else {
        total_quantity(g.drop_last()) + g.last().quantity
    }
}

/// The number of items of `s` of the shapes `ids`, shape by shape.
pub open spec fn count_sum(s: Seq<Item>, ids: Seq<i32>) -> int
    decreases ids.len(),
{
    if ids.len() == 0 {
        0
    } else {
        count_sum(s, ids.drop_last()) + shape_count(s, ids.last())
    }
}

/// One more item adds one to the count of its shape, if `ids` names it once.
proof fn lemma_count_sum_push(s: Seq<Item>, x: Item, ids: Seq<i32>)
    requires
        ids.no_duplicates(),
    ensures
        count_sum(s.push(x), ids) == count_sum(s, ids) + if ids.contains(x.shape_id) { 1int } else { 0int },
    decreases ids.len(),
{
    if ids.len() > 0 {
        let d = ids.drop_last();
        assert(d.no_duplicates());
        lemma_count_sum_push(s, x, d);
        s.lemma_filter_push(x, has_shape(ids.last()));
        if ids.contains(x.shape_id) {
            if ids.last() != x.shape_id {
                let q = choose|q: int| 0 <= q < ids.len() && ids[q] == x.shape_id;
                assert(d[q] == x.shape_id);
            } else {
                assert(!d.contains(x.shape_id)) by {
                    if d.contains(x.shape_id) {
                        let q = choose|q: int| 0 <= q < d.len() && d[q] == x.shape_id;
                        assert(ids[q] == ids[ids.len() - 1]);
                    }
                }
            }
        } else {
            assert(!d.contains(x.shape_id)) by {
                if d.contains(x.shape_id) {
                    let q = choose|q: int| 0 <= q < d.len() && d[q] == x.shape_id;
                    assert(ids[q] == x.shape_id);
                }
            }
        }
    }
}

/// The shapes of `first_ids` count all the items of `s`, each once.
proof fn lemma_count_sum_all(s: Seq<Item>)
    ensures
        count_sum(s, first_ids(s)) == s.len(),
    decreases s.len(),
{
    if s.len() > 0 {
        let d = s.drop_last();
        let x = s.last();
        assert(s =~= d.push(x));
        lemma_count_sum_all(d);
        lemma_first_ids(d);
        let f = first_ids(d);
        lemma_count_sum_push(d, x, f);
        if !f.contains(x.shape_id) {
            d.lemma_filter_push(x, has_shape(x.shape_id));
            assert(shape_count(d, x.shape_id) == 0) by {
                if d.filter(has_shape(x.shape_id)).len() > 0 {
                    let y = d.filter(has_shape(x.shape_id))[0];
                    assert(d.filter(has_shape(x.shape_id)).contains(y));
                    d.lemma_filter_contains_rev(has_shape(x.shape_id), y);
                    d.lemma_filter_pred(has_shape(x.shape_id), 0);
                    let k = choose|k: int| 0 <= k < d.len() && d[k] == y;
                    assert(f.contains(d[k].shape_id));
                }
            }
            assert(f.push(x.shape_id).drop_last() =~= f);
        }
    }
}

/// The quantities of groups of shapes add up to their items, when no count
/// exceeds what a quantity holds.
proof fn lemma_total_quantity_groups(s: Seq<Item>, ids: Seq<i32>)
    requires
        s.len() <= i32::MAX,
    ensures
        total_quantity(ids.map_values(|id: i32| group_of(s, id))) == count_sum(s, ids),
    decreases ids.len(),
{
    if ids.len() > 0 {
        lemma_total_quantity_groups(s, ids.drop_last());
        assert(ids.map_values(|id: i32| group_of(s, id)).drop_last() =~= ids.drop_last().map_values(
            |id: i32| group_of(s, id),
        ));
        broadcast use vstd::seq_lib::group_filter_ensures;
        assert(shape_count(s, ids.last()) <= s.len());
    }
}

/// Grouping items by shape keeps every item: the quantities of the groups
/// add up to the number of items, when that number fits in a quantity.
pub proof fn lemma_grouping_keeps_count(s: Seq<Item>)
    requires
        s.len() <= i32::MAX,
    ensures
        total_quantity(grouped(s)) == s.len(),
{
    lemma_count_sum_all(s);
    lemma_total_quantity_groups(s, first_ids(s));
}

} // verus!
