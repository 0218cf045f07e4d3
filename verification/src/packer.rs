//! The packing algorithm: items, free spaces, orientations and defragmentation.

use vstd::prelude::*;
use vstd::multiset::Multiset;
use crate::free_space::{
    all_filled, all_ok, all_within, apart_from_all, boxes_apart, by_volume, by_volume_sorted,
    defrag_spec, space_apart, spaces_disjoint,
    lemma_inside_within, lemma_permutation_contains, lemma_rearranged_spaces,
    lemma_total_volume_concat, lemma_total_volume_permutation, lemma_total_volume_remove,
    sort_by_volume, total_volume, volume_keys_spec, within,
};
use crate::geometry::{
    AxisSize, bounded, canonical, dims_volume, dims_xyz, distinct_axes, lemma_volume_bound,
    lemma_volume_sorted, lemma_xyz_of_canonical, lens, max3, sort3_ascending, sorted_triple,
    volume_of, xyz_int, xyz_of, Dimension, MAX_LENGTH,
};
use crate::orientation::{make_space, orientation_spec, split_spec};
use crate::sorting::{sorted_keys, stable_rearrangement, stable_sort_by_key, stable_sorted};

verus! {

/// The bin to pack, by its three inner lengths.
#[derive(Clone, Copy, Debug)]
pub struct Bin {
    pub width: u64,
    pub height: u64,
    pub depth: u64,
}

/// An item to pack. Identical items share a `shape_id`, as the quantity of a
/// shape is spread out over several items.
#[derive(Clone, Debug)]
pub struct Item {
    pub shape_id: i32,
    pub name: String,
    pub position_xyz: [u64; 3],
    /// Width, height and depth, in any order.
    pub size: [Dimension; 3],
}

/// A free block of the bin.
#[derive(Clone, Copy, Debug)]
pub struct Space {
    pub position_xyz: [u64; 3],
    /// Width, height and depth, in any order.
    pub size: [Dimension; 3],
}

/// Something with a size made of three dimensions.
pub trait Dimensional {
    spec fn spec_size(&self) -> [Dimension; 3];

    fn get_size(&self) -> (r: &[Dimension; 3])
        ensures
            *r == self.spec_size(),
    ;

    fn volume(&self) -> (r: u128)
        requires
            bounded(self.spec_size()),
        ensures
            r == volume_of(self.spec_size()),
    ;

    fn size_xyz(&self) -> (r: [u64; 3])
        ensures
            r@ == xyz_of(self.spec_size()),
    ;

    /// Both have the same lengths once placed by their axes, up to a rotation.
    fn is_same_size(&self, other: &[Dimension; 3]) -> (r: bool)
        ensures
            r == (sorted_triple(xyz_int(self.spec_size())) == sorted_triple(xyz_int(*other))),
    ;
}

impl Dimensional for Item {
    open spec fn spec_size(&self) -> [Dimension; 3] {
        self.size
    }

    fn get_size(&self) -> (r: &[Dimension; 3]) {
        &self.size
    }

    fn volume(&self) -> (r: u128) {
        dims_volume(&self.size)
    }

    fn size_xyz(&self) -> (r: [u64; 3]) {
        dims_xyz(&self.size)
    }

    fn is_same_size(&self, other: &[Dimension; 3]) -> (r: bool) {
        same_size(&self.size, other)
    }
}

impl Dimensional for Space {
    open spec fn spec_size(&self) -> [Dimension; 3] {
        self.size
    }

    fn get_size(&self) -> (r: &[Dimension; 3]) {
        &self.size
    }

    fn volume(&self) -> (r: u128) {
        dims_volume(&self.size)
    }

    fn size_xyz(&self) -> (r: [u64; 3]) {
        dims_xyz(&self.size)
    }

    fn is_same_size(&self, other: &[Dimension; 3]) -> (r: bool) {
        same_size(&self.size, other)
    }
}

/// Whether `a` and `b` have the same lengths once placed by their axes, up to a rotation.
pub fn same_size(a: &[Dimension; 3], b: &[Dimension; 3]) -> (r: bool)
    ensures
        r == (sorted_triple(xyz_int(*a)) == sorted_triple(xyz_int(*b))),
{
    let a = sort3_ascending(&dims_xyz(a));
    let b = sort3_ascending(&dims_xyz(b));
    a[0] == b[0] && a[1] == b[1] && a[2] == b[2]
}

/// A container of lengths `c` (placed by axes) holds an item of lengths `t`
/// in some axis-aligned rotation: sorted, each length of `c` is at least the
/// matching length of `t`.
pub open spec fn fits_spec(c: Seq<int>, t: Seq<int>) -> bool {
    &&& sorted_triple(c).0 >= sorted_triple(t).0
    &&& sorted_triple(c).1 >= sorted_triple(t).1
    &&& sorted_triple(c).2 >= sorted_triple(t).2
}

/// Some axis-aligned rotation of a box of lengths `t` (by axis) fits in a
/// box of lengths `c`: one of the six ways of matching the lengths of `t` to
/// those of `c` finds each no longer than its match.
pub open spec fn some_rotation_fits(c: Seq<int>, t: Seq<int>) -> bool {
    ||| c[0] >= t[0] && c[1] >= t[1] && c[2] >= t[2]
    ||| c[0] >= t[0] && c[2] >= t[1] && c[1] >= t[2]
    ||| c[1] >= t[0] && c[0] >= t[1] && c[2] >= t[2]
    ||| c[1] >= t[0] && c[2] >= t[1] && c[0] >= t[2]
    ||| c[2] >= t[0] && c[0] >= t[1] && c[1] >= t[2]
    ||| c[2] >= t[0] && c[1] >= t[1] && c[0] >= t[2]
}

/// Comparing sorted lengths tells exactly whether some rotation fits.
pub proof fn lemma_fits_some_rotation(c: Seq<int>, t: Seq<int>)
    ensures
        fits_spec(c, t) == some_rotation_fits(c, t),
{
}

/// Whether `to_fit` can be placed in `container` in some axis-aligned rotation.
pub fn fits(container: &Space, to_fit: &Item) -> (r: bool)
    ensures
        r == fits_spec(xyz_int(container.size), xyz_int(to_fit.size)),
        r == some_rotation_fits(xyz_int(container.size), xyz_int(to_fit.size)),
{
    proof {
        lemma_fits_some_rotation(xyz_int(container.size), xyz_int(to_fit.size));
    }
    let a = sort3_ascending(&container.size_xyz());
    let b = sort3_ascending(&to_fit.size_xyz());
    a[2] >= b[2] && a[1] >= b[1] && a[0] >= b[0]
}

/// A free space that the packer can hold: its `i`-th dimension lies along the
/// `i`-th axis, and it ends no further than `MAX_LENGTH` along each axis.
pub open spec fn space_ok(s: Space) -> bool {
    &&& canonical(s.size)
    &&& s.position_xyz[0] + s.size[0].length <= MAX_LENGTH
    &&& s.position_xyz[1] + s.size[1].length <= MAX_LENGTH
    &&& s.position_xyz[2] + s.size[2].length <= MAX_LENGTH
}

/// An item that the packer can hold: one width, one height and one depth,
/// none longer than `MAX_LENGTH`.
pub open spec fn item_ok(it: Item) -> bool {
    &&& distinct_axes(it.size)
    &&& bounded(it.size)
}

/// The box at `pos` with lengths `ext` lies inside the box at `outer_pos`
/// with lengths `outer_ext`.
pub open spec fn box_inside(
    pos: [u64; 3],
    ext: Seq<int>,
    outer_pos: [u64; 3],
    outer_ext: Seq<int>,
) -> bool {
    &&& outer_pos[0] <= pos[0] && pos[0] + ext[0] <= outer_pos[0] + outer_ext[0]
    &&& outer_pos[1] <= pos[1] && pos[1] + ext[1] <= outer_pos[1] + outer_ext[1]
    &&& outer_pos[2] <= pos[2] && pos[2] + ext[2] <= outer_pos[2] + outer_ext[2]
}

/// Space `s` lies inside space `outer`.
pub open spec fn space_inside(s: Space, outer: Space) -> bool {
    box_inside(s.position_xyz, xyz_int(s.size), outer.position_xyz, xyz_int(outer.size))
}

/// What identifies an item whatever its position and rotation: its shape,
/// its name and its lengths sorted shortest first.
pub open spec fn item_key(it: Item) -> (i32, String, (int, int, int)) {
    (it.shape_id, it.name, sorted_triple(lens(it.size)))
}

/// The identities of the items of `s`, counted.
pub open spec fn item_keys(s: Seq<Item>) -> Multiset<(i32, String, (int, int, int))> {
    s.map_values(|it: Item| item_key(it)).to_multiset()
}

/// Adding the same element on both sides of an equation of multisets keeps it.
proof fn lemma_insert_add<T>(a: Multiset<T>, u: Multiset<T>, o: Multiset<T>, t: Multiset<T>, x: T)
    requires
        a.add(u) == o.add(t),
    ensures
        a.insert(x).add(u) == o.add(t.insert(x)),
{
    broadcast use vstd::multiset::group_multiset_axioms;

    assert(a.insert(x).add(u) =~= a.add(u).insert(x));
    assert(o.add(t.insert(x)) =~= o.add(t).insert(x));
}

/// Adding the same element on both sides of an equation of multisets keeps it.
proof fn lemma_add_insert<T>(u: Multiset<T>, a: Multiset<T>, o: Multiset<T>, t: Multiset<T>, x: T)
    requires
        u.add(a) == o.add(t),
    ensures
        u.add(a.insert(x)) == o.add(t.insert(x)),
{
    broadcast use vstd::multiset::group_multiset_axioms;

    assert(u.add(a.insert(x)) =~= u.add(a).insert(x));
    assert(o.add(t.insert(x)) =~= o.add(t).insert(x));
}

/// Appending an item adds its identity.
proof fn lemma_item_keys_push(s: Seq<Item>, x: Item)
    ensures
        item_keys(s.push(x)) == item_keys(s).insert(item_key(x)),
{
    assert(s.push(x).map_values(|it: Item| item_key(it)) =~= s.map_values(|it: Item| item_key(it)).push(item_key(x)));
    vstd::seq_lib::to_multiset_build(s.map_values(|it: Item| item_key(it)), item_key(x));
}

/// Two sequences of the same items, in any order, have the same identities.
proof fn lemma_item_keys_permutation(s: Seq<Item>, t: Seq<Item>)
    requires
        s.to_multiset() == t.to_multiset(),
    ensures
        item_keys(s) == item_keys(t),
    decreases s.len(),
{
    broadcast use vstd::seq_lib::group_to_multiset_ensures;

    if s.len() == 0 {
        assert(t.len() == 0) by {
            vstd::seq_lib::to_multiset_len(s);
            vstd::seq_lib::to_multiset_len(t);
        }
        assert(s.map_values(|it: Item| item_key(it)) =~= t.map_values(|it: Item| item_key(it)));
    } else {
        let x = s.last();
        assert(s =~= s.drop_last().push(x));
        vstd::seq_lib::to_multiset_build(s.drop_last(), x);
        vstd::seq_lib::to_multiset_contains(t, x);
        vstd::seq_lib::to_multiset_contains(s, x);
        assert(s.contains(x)) by {
            assert(s[s.len() - 1] == x);
        }
        let i = choose|i: int| 0 <= i < t.len() && t[i] == x;
        vstd::seq_lib::to_multiset_remove(t, i);
        assert(s.drop_last().to_multiset() =~= t.remove(i).to_multiset());
        lemma_item_keys_permutation(s.drop_last(), t.remove(i));
        lemma_item_keys_push(s.drop_last(), x);
        let tk = t.map_values(|it: Item| item_key(it));
        assert(t.remove(i).map_values(|it: Item| item_key(it)) =~= tk.remove(i));
        vstd::seq_lib::to_multiset_remove(tk, i);
        vstd::seq_lib::to_multiset_contains(tk, item_key(x));
        assert(tk[i] == item_key(x));
        assert(item_keys(t) =~= item_keys(t.remove(i)).insert(item_key(x)));
    }
}

/// The sum of the volumes of the items of `s`.
pub open spec fn items_volume(s: Seq<Item>) -> int
    decreases s.len(),
{
    if s.len() == 0 {
        0
    } else {
        items_volume(s.drop_last()) + volume_of(s.last().size)
    }
}

/// The longest length of the bin.
pub open spec fn bin_max(bin: Bin) -> int {
    max3(bin.width as int, bin.height as int, bin.depth as int)
}

/// The bin's lengths by axis.
pub open spec fn bin_ext(bin: Bin) -> Seq<int> {
    seq![bin.width as int, bin.height as int, bin.depth as int]
}

/// An item whose longest length exceeds the bin's longest never fits, in
/// any axis-aligned rotation.
pub open spec fn oversized(bin: Bin) -> spec_fn(Item) -> bool {
    |it: Item| sorted_triple(lens(it.size)).2 > bin_max(bin)
}

/// An item that is not `oversized`.
pub open spec fn not_oversized(bin: Bin) -> spec_fn(Item) -> bool {
    |it: Item| sorted_triple(lens(it.size)).2 <= bin_max(bin)
}

/// Items whose longest length exceeds each of the bin's lengths: its width,
/// its height and its depth.
pub open spec fn longer_than_bin(bin: Bin) -> spec_fn(Item) -> bool {
    |it: Item|
        sorted_triple(lens(it.size)).2 > bin.width && sorted_triple(lens(it.size)).2 > bin.height
            && sorted_triple(lens(it.size)).2 > bin.depth
}

/// An item is set aside as too long for the bin exactly when its longest
/// length exceeds every length of the bin.
pub proof fn lemma_oversized_longer_than_bin(bin: Bin)
    ensures
        oversized(bin) == longer_than_bin(bin),
{
    assert(oversized(bin) =~= longer_than_bin(bin));
}

/// The largest of three lengths.
fn max_length(a: u64, b: u64, c: u64) -> (r: u64)
    ensures
        r == max3(a as int, b as int, c as int),
{
    let m = if a >= b { a } else { b };
    if c > m { c } else { m }
}

/// Parts `items` into those no longer than the bin's longest length and
/// those longer, each in their order.
fn split_oversized(items: Vec<Item>, bin: &Bin) -> (r: (Vec<Item>, Vec<Item>))
    ensures
        r.0@ == items@.filter(not_oversized(*bin)),
        r.1@ == items@.filter(oversized(*bin)),
        item_keys(r.0@).add(item_keys(r.1@)) == item_keys(items@),
{
    let ghost v0 = items@;
    let n = items.len();
    let mut rest = crate::sorting::reversed(items);
    let mut kept: Vec<Item> = Vec::new();
    let mut unplaced: Vec<Item> = Vec::new();
    let bin_max_len = max_length(bin.width, bin.height, bin.depth);
    let mut i: usize = 0;
    proof {
        assert(v0.take(0) =~= Seq::<Item>::empty());
        assert(kept@.map_values(|it: Item| item_key(it)) =~= Seq::empty());
        assert(unplaced@.map_values(|it: Item| item_key(it)) =~= Seq::empty());
        assert(v0.take(0).map_values(|it: Item| item_key(it)) =~= Seq::empty());
        broadcast use vstd::seq_lib::group_to_multiset_ensures;
        assert(item_keys(kept@) =~= Multiset::empty());
        assert(item_keys(unplaced@) =~= Multiset::empty());
        assert(item_keys(v0.take(0)) =~= Multiset::empty());
    }
    while i < n
        invariant
            n == v0.len(),
            i <= n,
            rest@ == v0.skip(i as int).reverse(),
            bin_max_len == bin_max(*bin),
            kept@ == v0.take(i as int).filter(not_oversized(*bin)),
            unplaced@ == v0.take(i as int).filter(oversized(*bin)),
            item_keys(kept@).add(item_keys(unplaced@)) == item_keys(v0.take(i as int)),
        decreases n - i,
    {
        proof {
            assert(v0.skip(i as int).reverse().last() == v0[i as int]);
        }
        let item = rest.pop().unwrap();
        proof {
            assert(rest@ =~= v0.skip(i + 1).reverse());
            assert(v0.take(i + 1) =~= v0.take(i as int).push(item));
            v0.take(i as int).lemma_filter_push(item, not_oversized(*bin));
            v0.take(i as int).lemma_filter_push(item, oversized(*bin));
            lemma_item_keys_push(v0.take(i as int), item);
            lemma_item_keys_push(kept@, item);
            lemma_item_keys_push(unplaced@, item);
        }
        let item_max = max_length(item.size[0].length, item.size[1].length, item.size[2].length);
        if item_max > bin_max_len {
            unplaced.push(item);
        } else {
            kept.push(item);
        }
        i += 1;
    }
    proof {
        assert(v0.take(n as int) =~= v0);
    }
    (kept, unplaced)
}

/// The items of `s` can all be held by the packer.
pub open spec fn all_items_ok(s: Seq<Item>) -> bool {
    forall|k: int| 0 <= k < s.len() ==> item_ok(#[trigger] s[k])
}

/// The volume of each item of `s`.
pub open spec fn item_volume_keys(s: Seq<Item>) -> Seq<u128> {
    s.map_values(|it: Item| volume_of(it.size) as u128)
}

/// The longest length of each item of `s`.
pub open spec fn item_max_keys(s: Seq<Item>) -> Seq<u128> {
    s.map_values(|it: Item| sorted_triple(lens(it.size)).2 as u128)
}

/// The volume of each item of `items`.
fn item_volumes(items: &Vec<Item>) -> (k: Vec<u128>)
    requires
        all_items_ok(items@),
    ensures
        k@ == item_volume_keys(items@),
{
    let mut k: Vec<u128> = Vec::new();
    let mut i: usize = 0;
    while i < items.len()
        invariant
            i <= items@.len(),
            all_items_ok(items@),
            k@ == item_volume_keys(items@.take(i as int)),
        decreases items@.len() - i,
    {
        k.push(items[i].volume());
        proof {
            lemma_volume_bound(items@[i as int].size[0].length as int, items@[i as int].size[1].length as int, items@[i as int].size[2].length as int);
            assert(item_volume_keys(items@.take(i + 1)) =~= item_volume_keys(items@.take(i as int)).push(volume_of(items@[i as int].size) as u128));
        }
        i += 1;
    }
    assert(items@.take(items@.len() as int) =~= items@);
    k
}

/// The longest length of each item of `items`.
fn item_max_lengths(items: &Vec<Item>) -> (k: Vec<u128>)
    ensures
        k@ == item_max_keys(items@),
{
    let mut k: Vec<u128> = Vec::new();
    let mut i: usize = 0;
    while i < items.len()
        invariant
            i <= items@.len(),
            k@ == item_max_keys(items@.take(i as int)),
        decreases items@.len() - i,
    {
        let d = &items[i].size;
        k.push(max_length(d[0].length, d[1].length, d[2].length) as u128);
        proof {
            assert(item_max_keys(items@.take(i + 1)) =~= item_max_keys(items@.take(i as int)).push(sorted_triple(lens(items@[i as int].size)).2 as u128));
        }
        i += 1;
    }
    assert(items@.take(items@.len() as int) =~= items@);
    k
}

/// A rearrangement of items keeps what holds of each of them.
proof fn lemma_rearranged_items(s: Seq<Item>, ks: Seq<u128>, r: Seq<Item>, rk: Seq<u128>, idx: Seq<int>)
    requires
        stable_rearrangement(s, ks, r, rk, idx),
    ensures
        all_items_ok(s) ==> all_items_ok(r),
{
    assert forall|k: int| 0 <= k < r.len() implies r[k] == s[idx[k]] && 0 <= idx[k] < s.len() by {}
}

/// The items `s` in the order in which they are packed: sorted by volume,
/// largest first, then by longest length, largest first, both sorts stable.
pub open spec fn packing_order(s: Seq<Item>) -> Seq<Item> {
    let by_volume = stable_sorted(s, item_volume_keys(s), true).0;
    stable_sorted(by_volume, item_max_keys(by_volume), true).0
}

/// Item `a` is packed no later than item `b` would be: its longest length is
/// larger, or the same with a volume at least as large.
pub open spec fn packed_before(a: Item, b: Item) -> bool {
    ||| sorted_triple(lens(a.size)).2 > sorted_triple(lens(b.size)).2
    ||| sorted_triple(lens(a.size)).2 == sorted_triple(lens(b.size)).2 && volume_of(a.size)
        >= volume_of(b.size)
}

/// The items of `s` go from the largest longest length to the smallest, and
/// among equal longest lengths from the largest volume to the smallest.
pub open spec fn in_packing_order(s: Seq<Item>) -> bool {
    forall|a: int, b: int| 0 <= a < b < s.len() ==> #[trigger] packed_before(s[a], s[b])
}

/// Every item of `done` is packed no later than any item of `sorted` from
/// position `i` on.
spec fn ahead_of(done: Seq<Item>, sorted: Seq<Item>, i: int) -> bool {
    forall|a: int, m: int| 0 <= a < done.len() && i <= m < sorted.len() ==> #[trigger] packed_before(done[a], sorted[m])
}

/// Taking the next item of a sequence in packing order, in any rotation,
/// keeps the items taken so far in packing order and ahead of the rest.
proof fn lemma_order_push(done: Seq<Item>, sorted: Seq<Item>, i: int, x: Item)
    requires
        in_packing_order(sorted),
        0 <= i < sorted.len(),
        in_packing_order(done),
        ahead_of(done, sorted, i),
        sorted_triple(lens(x.size)) == sorted_triple(lens(sorted[i].size)),
    ensures
        in_packing_order(done.push(x)),
        ahead_of(done.push(x), sorted, i + 1),
{
    lemma_volume_sorted(x.size);
    lemma_volume_sorted(sorted[i].size);
    let d = done.push(x);
    assert forall|a: int, b: int| 0 <= a < b < d.len() implies #[trigger] packed_before(d[a], d[b]) by {
        if b == done.len() {
            assert(packed_before(done[a], sorted[i]));
        } else {
            assert(packed_before(done[a], done[b]));
        }
    }
    assert forall|a: int, m: int| 0 <= a < d.len() && i + 1 <= m < sorted.len() implies #[trigger] packed_before(d[a], sorted[m]) by {
        if a == done.len() {
            assert(packed_before(sorted[i], sorted[m]));
        } else {
            assert(packed_before(done[a], sorted[m]));
        }
    }
}

/// Orders the items in which they are packed: largest longest length first,
/// then largest volume first; items alike in both keep their order.
fn sort_items(items: Vec<Item>) -> (r: Vec<Item>)
    requires
        all_items_ok(items@),
    ensures
        r@.to_multiset() == items@.to_multiset(),
        r@.len() == items@.len(),
        exists|mid: Seq<Item>, i1: Seq<int>, i2: Seq<int>| {
            &&& stable_rearrangement(items@, item_volume_keys(items@), mid, item_volume_keys(mid), i1)
            &&& sorted_keys(item_volume_keys(mid), true)
            &&& stable_rearrangement(mid, item_max_keys(mid), r@, item_max_keys(r@), i2)
            &&& sorted_keys(item_max_keys(r@), true)
        },
        r@ == packing_order(items@),
        in_packing_order(r@),
{
    let ghost s0 = items@;
    // Largest volume second.
    let keys = item_volumes(&items);
    let (mid, mid_keys) = stable_sort_by_key(items, keys, true);
    let ghost m0 = mid@;
    proof {
        let i1 = choose|idx: Seq<int>| stable_rearrangement(s0, keys@, mid@, mid_keys@, idx);
        assert forall|m: int| 0 <= m < mid_keys@.len() implies mid_keys@[m] == item_volume_keys(mid@)[m] by {
            assert(0 <= i1[m] < s0.len());
        }
        assert(mid_keys@ =~= item_volume_keys(mid@));
        lemma_rearranged_items(s0, keys@, mid@, mid_keys@, i1);
    }
    // Largest dimension first.
    let keys2 = item_max_lengths(&mid);
    let (r, r_keys) = stable_sort_by_key(mid, keys2, true);
    proof {
        let i1 = choose|idx: Seq<int>| stable_rearrangement(s0, keys@, m0, mid_keys@, idx);
        let i2 = choose|idx: Seq<int>| stable_rearrangement(m0, keys2@, r@, r_keys@, idx);
        assert forall|m: int| 0 <= m < r_keys@.len() implies r_keys@[m] == item_max_keys(r@)[m] by {
            assert(0 <= i2[m] < m0.len());
        }
        assert(r_keys@ =~= item_max_keys(r@));
        assert(stable_rearrangement(s0, item_volume_keys(s0), m0, item_volume_keys(m0), i1));
        assert forall|a: int, b: int| 0 <= a < b < r@.len() implies #[trigger] packed_before(r@[a], r@[b]) by {
            let ma = i2[a];
            let mb = i2[b];
            assert(r@[a] == m0[ma] && r@[b] == m0[mb]);
            assert(item_ok(m0[ma]) && item_ok(m0[mb]));
            assert(!crate::sorting::key_before(r_keys@[b], r_keys@[a], true));
            lemma_volume_bound(m0[ma].size[0].length as int, m0[ma].size[1].length as int, m0[ma].size[2].length as int);
            lemma_volume_bound(m0[mb].size[0].length as int, m0[mb].size[1].length as int, m0[mb].size[2].length as int);
            if r_keys@[a] == r_keys@[b] {
                assert(ma < mb);
                assert(!crate::sorting::key_before(mid_keys@[mb], mid_keys@[ma], true));
            }
        }
    }
    r
}

/// Item `it` lies within the bin, whose corner is at the origin.
pub open spec fn item_in_bin(it: Item, bin: Bin) -> bool {
    &&& it.position_xyz[0] + xyz_int(it.size)[0] <= bin.width
    &&& it.position_xyz[1] + xyz_int(it.size)[1] <= bin.height
    &&& it.position_xyz[2] + xyz_int(it.size)[2] <= bin.depth
}

/// The position of the first space of `free` that `item` fits in, if any.
pub open spec fn first_fit_spec(free: Seq<Space>, item: Item) -> Option<int>
    decreases free.len(),
{
    if free.len() == 0 {
        None
    } else if fits_spec(xyz_int(free[0].size), xyz_int(item.size)) {
        Some(0)
    } else {
        match first_fit_spec(free.drop_first(), item) {
            Some(k) => Some(k + 1),
            None => None,
        }
    }
}

/// `first_fit_spec` finds the first space that the item fits in.
proof fn lemma_first_fit_spec(free: Seq<Space>, item: Item, i: int)
    requires
        0 <= i <= free.len(),
        forall|k: int| 0 <= k < i ==> !fits_spec(xyz_int(#[trigger] free[k].size), xyz_int(item.size)),
        i < free.len() ==> fits_spec(xyz_int(free[i].size), xyz_int(item.size)),
    ensures
        first_fit_spec(free, item) == if i < free.len() { Some(i) } else { None::<int> },
    decreases free.len(),
{
    if free.len() > 0 && i > 0 {
        assert(!fits_spec(xyz_int(free[0].size), xyz_int(item.size)));
        assert forall|k: int| 0 <= k < i - 1 implies !fits_spec(xyz_int(#[trigger] free.drop_first()[k].size), xyz_int(item.size)) by {
            assert(free.drop_first()[k] == free[k + 1]);
        }
        lemma_first_fit_spec(free.drop_first(), item, i - 1);
    }
}

/// The position of the first free space that `item` fits in.
fn first_fit(free_spaces: &Vec<Space>, item: &Item) -> (r: Option<usize>)
    ensures
        r matches Some(i) ==> {
            &&& i < free_spaces@.len()
            &&& fits_spec(xyz_int(free_spaces@[i as int].size), xyz_int(item.size))
            &&& forall|k: int|
                0 <= k < i ==> !fits_spec(xyz_int(#[trigger] free_spaces@[k].size), xyz_int(item.size))
        },
        r is None ==> forall|k: int|
            0 <= k < free_spaces@.len() ==> !fits_spec(
                xyz_int(#[trigger] free_spaces@[k].size),
                xyz_int(item.size),
            ),
        r matches Some(i) ==> first_fit_spec(free_spaces@, *item) == Some(i as int),
        r is None ==> first_fit_spec(free_spaces@, *item) is None,
{
    let mut index: usize = 0;
    while index < free_spaces.len()
        invariant
            index <= free_spaces@.len(),
            forall|k: int|
                0 <= k < index ==> !fits_spec(xyz_int(#[trigger] free_spaces@[k].size), xyz_int(item.size)),
        decreases free_spaces@.len() - index,
    {
        if fits(&free_spaces[index], item) {
            proof {
                lemma_first_fit_spec(free_spaces@, *item, index as int);
            }
            return Some(index);
        }
        index += 1;
    }
    proof {
        lemma_first_fit_spec(free_spaces@, *item, free_spaces@.len() as int);
    }
    None
}

/// The volume of the bin.
pub open spec fn bin_volume(bin: Bin) -> int {
    bin.width * bin.height * bin.depth
}

/// What holds of the packing at every step: the free spaces are spaces the
/// packer can hold and lie within the bin, the placed items lie within the
/// bin along three different axes, and the placed items and the free spaces
/// together fill the bin's volume.
pub open spec fn packing_ok(bin: Bin, placed: Seq<Item>, free: Seq<Space>) -> bool {
    &&& all_ok(free)
    &&& all_within(free, bin_ext(bin))
    &&& forall|k: int| 0 <= k < placed.len() ==> #[trigger] item_in_bin(placed[k], bin) && item_ok(placed[k])
    &&& items_volume(placed) + total_volume(free) == bin_volume(bin)
}

/// Item `it` and the box at `p` with lengths `e` (by axis) have disjoint interiors.
pub open spec fn item_apart(it: Item, p: [u64; 3], e: Seq<int>) -> bool {
    boxes_apart(it.position_xyz, xyz_int(it.size), p, e)
}

/// Nothing overlaps: no two placed items share an interior point, no two
/// free spaces do, and no free space shares one with a placed item.
pub open spec fn no_overlap(placed: Seq<Item>, free: Seq<Space>) -> bool {
    &&& forall|i: int, j: int|
        0 <= i < placed.len() && 0 <= j < placed.len() && i != j ==> #[trigger] item_apart(
            placed[i],
            placed[j].position_xyz,
            xyz_int(placed[j].size),
        )
    &&& spaces_disjoint(free)
    &&& forall|i: int|
        0 <= i < placed.len() ==> apart_from_all(free, #[trigger] placed[i].position_xyz, xyz_int(placed[i].size))
}

/// A box inside another is apart from whatever the other is apart from.
proof fn lemma_inside_apart(p: [u64; 3], e: Seq<int>, q: [u64; 3], f: Seq<int>, r: [u64; 3], g: Seq<int>)
    requires
        box_inside(p, e, q, f),
        boxes_apart(q, f, r, g),
    ensures
        boxes_apart(p, e, r, g),
        boxes_apart(r, g, p, e),
{
}

/// Placing an item inside a free space, and replacing that space by blocks
/// inside it that overlap neither each other nor the item, keeps anything
/// from overlapping.
proof fn lemma_place_no_overlap(placed: Seq<Item>, free: Seq<Space>, index: int, x: Item, rem: Seq<Space>)
    requires
        no_overlap(placed, free),
        0 <= index < free.len(),
        box_inside(x.position_xyz, xyz_int(x.size), free[index].position_xyz, xyz_int(free[index].size)),
        forall|k: int| 0 <= k < rem.len() ==> space_inside(#[trigger] rem[k], free[index]),
        spaces_disjoint(rem),
        apart_from_all(rem, x.position_xyz, xyz_int(x.size)),
    ensures
        no_overlap(placed.push(x), free.remove(index) + rem),
{
    let sp = free[index];
    let after = free.remove(index);
    let app = after + rem;
    let np = placed.push(x);
    let n = after.len();
    assert forall|k: int| 0 <= k < n implies #[trigger] after[k] == free[if k < index { k } else { k + 1 }] by {}
    // Placed items, old and new, do not overlap.
    assert forall|i: int, j: int|
        0 <= i < np.len() && 0 <= j < np.len() && i != j implies #[trigger] item_apart(
        np[i],
        np[j].position_xyz,
        xyz_int(np[j].size),
    ) by {
        if i == placed.len() {
            assert(apart_from_all(free, placed[j].position_xyz, xyz_int(placed[j].size)));
            assert(space_apart(sp, placed[j].position_xyz, xyz_int(placed[j].size)));
            lemma_inside_apart(x.position_xyz, xyz_int(x.size), sp.position_xyz, xyz_int(sp.size), placed[j].position_xyz, xyz_int(placed[j].size));
        } else if j == placed.len() {
            assert(apart_from_all(free, placed[i].position_xyz, xyz_int(placed[i].size)));
            assert(space_apart(sp, placed[i].position_xyz, xyz_int(placed[i].size)));
            lemma_inside_apart(x.position_xyz, xyz_int(x.size), sp.position_xyz, xyz_int(sp.size), placed[i].position_xyz, xyz_int(placed[i].size));
        } else {
            assert(item_apart(placed[i], placed[j].position_xyz, xyz_int(placed[j].size)));
        }
    }
    // The free spaces do not overlap.
    assert forall|i: int, j: int|
        0 <= i < app.len() && 0 <= j < app.len() && i != j implies #[trigger] space_apart(
        app[i],
        app[j].position_xyz,
        xyz_int(app[j].size),
    ) by {
        if i < n && j < n {
            let fi = if i < index { i } else { i + 1 };
            let fj = if j < index { j } else { j + 1 };
            assert(app[i] == free[fi]);
            assert(app[j] == free[fj]);
            assert(space_apart(free[fi], free[fj].position_xyz, xyz_int(free[fj].size)));
        } else if i < n {
            let fi = if i < index { i } else { i + 1 };
            assert(app[i] == free[fi]);
            assert(app[j] == rem[j - n]);
            assert(space_inside(rem[j - n], sp));
            assert(space_apart(sp, free[fi].position_xyz, xyz_int(free[fi].size)));
            lemma_inside_apart(rem[j - n].position_xyz, xyz_int(rem[j - n].size), sp.position_xyz, xyz_int(sp.size), free[fi].position_xyz, xyz_int(free[fi].size));
        } else if j < n {
            let fj = if j < index { j } else { j + 1 };
            assert(app[j] == free[fj]);
            assert(app[i] == rem[i - n]);
            assert(space_inside(rem[i - n], sp));
            assert(space_apart(sp, free[fj].position_xyz, xyz_int(free[fj].size)));
            lemma_inside_apart(rem[i - n].position_xyz, xyz_int(rem[i - n].size), sp.position_xyz, xyz_int(sp.size), free[fj].position_xyz, xyz_int(free[fj].size));
        } else {
            assert(app[i] == rem[i - n]);
            assert(app[j] == rem[j - n]);
            assert(space_apart(rem[i - n], rem[j - n].position_xyz, xyz_int(rem[j - n].size)));
        }
    }
    // No free space overlaps a placed item.
    assert forall|i: int| 0 <= i < np.len() implies apart_from_all(app, #[trigger] np[i].position_xyz, xyz_int(np[i].size)) by {
        let q = np[i].position_xyz;
        let g = xyz_int(np[i].size);
        assert forall|k: int| 0 <= k < app.len() implies #[trigger] space_apart(app[k], q, g) by {
            if i < placed.len() {
                assert(np[i] == placed[i]);
                assert(apart_from_all(free, placed[i].position_xyz, xyz_int(placed[i].size)));
                if k < n {
                    let fk = if k < index { k } else { k + 1 };
                    assert(app[k] == free[fk]);
                    assert(space_apart(free[fk], q, g));
                } else {
                    assert(app[k] == rem[k - n]);
                    assert(space_inside(rem[k - n], sp));
                    assert(space_apart(sp, q, g));
                    lemma_inside_apart(rem[k - n].position_xyz, xyz_int(rem[k - n].size), sp.position_xyz, xyz_int(sp.size), q, g);
                }
            } else {
                assert(np[i] == x);
                if k < n {
                    let fk = if k < index { k } else { k + 1 };
                    assert(app[k] == free[fk]);
                    assert(space_apart(sp, free[fk].position_xyz, xyz_int(free[fk].size)));
                    lemma_inside_apart(q, g, sp.position_xyz, xyz_int(sp.size), free[fk].position_xyz, xyz_int(free[fk].size));
                } else {
                    assert(app[k] == rem[k - n]);
                    assert(space_apart(rem[k - n], q, g));
                }
            }
        }
    }
}

/// Replacing the free spaces by spaces that overlap neither each other nor
/// anything that the old ones did not overlap keeps anything from overlapping.
proof fn lemma_regrouped_no_overlap(placed: Seq<Item>, free: Seq<Space>, new_free: Seq<Space>)
    requires
        no_overlap(placed, free),
        spaces_disjoint(free) ==> spaces_disjoint(new_free),
        forall|p: [u64; 3], e: Seq<int>|
            apart_from_all(free, p, e) ==> #[trigger] apart_from_all(new_free, p, e),
    ensures
        no_overlap(placed, new_free),
{
    assert forall|i: int| 0 <= i < placed.len() implies apart_from_all(
        new_free,
        #[trigger] placed[i].position_xyz,
        xyz_int(placed[i].size),
    ) by {
        assert(apart_from_all(free, placed[i].position_xyz, xyz_int(placed[i].size)));
    }
}

/// `item` placed in `space`: at the space's position, in the orientation
/// that `orientation_spec` picks.
pub open spec fn placed_spec(item: Item, space: Space) -> Item {
    Item { position_xyz: space.position_xyz, size: orientation_spec(space.size, item.size), ..item }
}

/// The free spaces once `item` is placed in the space at `index`: that space
/// replaced by what the item leaves of it, all sorted by volume.
#[verifier::opaque]
pub open spec fn free_after_spec(free: Seq<Space>, index: int, item: Item) -> Seq<Space> {
    let space = free[index];
    let o = orientation_spec(space.size, item.size);
    by_volume_sorted(free.remove(index) + split_spec(space, o[2], o[1], o[0]))
}

/// Puts `item` into the free space at `index`, in the orientation that
/// `best_orientation` picks, and replaces that space by what is left of it;
/// the free spaces are then sorted by volume, smallest first.
#[verifier::rlimit(30)]
fn place_item(
    placed: &mut Vec<Item>,
    free_spaces: &mut Vec<Space>,
    index: usize,
    item: Item,
    Ghost(bin): Ghost<Bin>,
)
    requires
        packing_ok(bin, old(placed)@, old(free_spaces)@),
        no_overlap(old(placed)@, old(free_spaces)@),
        index < old(free_spaces)@.len(),
        item_ok(item),
        fits_spec(xyz_int(old(free_spaces)@[index as int].size), xyz_int(item.size)),
    ensures
        packing_ok(bin, final(placed)@, final(free_spaces)@),
        no_overlap(final(placed)@, final(free_spaces)@),
        by_volume(final(free_spaces)@),
        all_filled(old(free_spaces)@) ==> all_filled(final(free_spaces)@),
        final(placed)@.len() == old(placed)@.len() + 1,
        final(placed)@.drop_last() == old(placed)@,
        item_key(final(placed)@.last()) == item_key(item),
        final(placed)@.last().position_xyz == old(free_spaces)@[index as int].position_xyz,
        final(placed)@ == old(placed)@.push(placed_spec(item, old(free_spaces)@[index as int])),
        final(free_spaces)@ == free_after_spec(old(free_spaces)@, index as int, item),
{
    reveal(free_after_spec);
    let space = free_spaces[index];
    let (orientation, remainder) = BinPacker3D::best_orientation(&space, &item);
    let ghost old_placed = placed@;
    let ghost old_free = free_spaces@;
    let mut placed_item = item;
    placed_item.position_xyz = space.position_xyz;
    placed_item.size = orientation;
    placed.push(placed_item);
    free_spaces.remove(index);
    let ghost after_remove = free_spaces@;
    let mut remainder = remainder;
    let ghost rem = remainder@;
    free_spaces.append(&mut remainder);
    let ghost appended = free_spaces@;
    let mut unsorted: Vec<Space> = Vec::new();
    core::mem::swap(&mut unsorted, free_spaces);
    *free_spaces = sort_by_volume(unsorted);
    proof {
        let ext = bin_ext(bin);
        lemma_xyz_of_canonical(space.size);
        lemma_volume_sorted(orientation);
        lemma_volume_sorted(item.size);
        assert(placed@.drop_last() =~= old_placed);
        assert(item_in_bin(placed_item, bin));
        lemma_total_volume_remove(old_free, index as int);
        assert(appended =~= after_remove + rem);
        lemma_total_volume_concat(after_remove, rem);
        assert forall|k: int| 0 <= k < appended.len() implies {
            &&& space_ok(#[trigger] appended[k])
            &&& within(appended[k], ext)
            &&& all_filled(old_free) ==> volume_of(appended[k].size) > 0
        } by {
            if k < after_remove.len() {
                if k < index {
                    assert(appended[k] == old_free[k]);
                } else {
                    assert(appended[k] == old_free[k + 1]);
                }
            } else {
                assert(appended[k] == rem[k - after_remove.len()]);
                lemma_inside_within(appended[k], space, ext);
            }
        }
        let idx = choose|idx: Seq<int>| stable_rearrangement(appended, volume_keys_spec(appended), free_spaces@, volume_keys_spec(free_spaces@), idx);
        lemma_rearranged_spaces(appended, volume_keys_spec(appended), free_spaces@, volume_keys_spec(free_spaces@), idx, ext);
        lemma_total_volume_permutation(free_spaces@, appended);
        lemma_place_no_overlap(old_placed, old_free, index as int, placed_item, rem);
        assert(placed@ =~= old_placed.push(placed_item));
        assert forall|i: int| 0 <= i < placed@.len() implies apart_from_all(
            free_spaces@,
            #[trigger] placed@[i].position_xyz,
            xyz_int(placed@[i].size),
        ) by {
            assert(apart_from_all(appended, placed@[i].position_xyz, xyz_int(placed@[i].size)));
        }
        assert forall|k: int| 0 <= k < placed@.len() implies #[trigger] item_in_bin(placed@[k], bin) && item_ok(placed@[k]) by {
            if k < old_placed.len() {
                assert(placed@[k] == old_placed[k]);
            }
        }
    }
}

/// Where the packing stands after some items: the items placed and set
/// aside, the free spaces, the size of the last item taken, and whether the
/// free spaces were defragmented since the last placement.
pub struct PackingState {
    pub placed: Seq<Item>,
    pub unplaced: Seq<Item>,
    pub free: Seq<Space>,
    pub prev_size: Option<[Dimension; 3]>,
    pub defragged: bool,
}

/// Sizes `a` and `b` have the same lengths by axis, up to a rotation.
pub open spec fn same_size_spec(a: [Dimension; 3], b: [Dimension; 3]) -> bool {
    sorted_triple(xyz_int(a)) == sorted_triple(xyz_int(b))
}

/// One step of the packing, taking `item`: when its size differs from the
/// previous item's, the free spaces are defragmented; the item goes into the
/// first free space that holds it, and when none does and the spaces were
/// not defragmented since the last placement, they are, and it is looked
/// for again; when none holds it still, it is set aside.
#[verifier::opaque]
pub open spec fn pack_step(st: PackingState, item: Item) -> PackingState {
    let changed = match st.prev_size {
        Some(p) => !same_size_spec(item.size, p),
        None => false,
    };
    let free1 = if changed {
        defrag_spec(st.free)
    } else {
        st.free
    };
    let defragged1 = changed || st.defragged;
    let fit1 = first_fit_spec(free1, item);
    let again = fit1 is None && !defragged1;
    let free2 = if again {
        defrag_spec(free1)
    } else {
        free1
    };
    let fit2 = if again {
        first_fit_spec(free2, item)
    } else {
        fit1
    };
    match fit2 {
        Some(k) => PackingState {
            placed: st.placed.push(placed_spec(item, free2[k])),
            unplaced: st.unplaced,
            free: free_after_spec(free2, k, item),
            prev_size: Some(item.size),
            defragged: false,
        },
        None => PackingState {
            placed: st.placed,
            unplaced: st.unplaced.push(item),
            free: free2,
            prev_size: Some(item.size),
            defragged: defragged1 || again,
        },
    }
}

/// The packing after taking `items` in order, from `st`.
pub open spec fn pack_steps(st: PackingState, items: Seq<Item>) -> PackingState
    decreases items.len(),
{
    if items.len() == 0 {
        st
    } else {
        pack_step(pack_steps(st, items.drop_last()), items.last())
    }
}

/// The free space that a bin starts with: all of it.
pub open spec fn whole_bin(bin: Bin) -> Space {
    Space {
        position_xyz: [0, 0, 0],
        size: [
            Dimension { length: bin.width, axis: AxisSize::Width },
            Dimension { length: bin.height, axis: AxisSize::Height },
            Dimension { length: bin.depth, axis: AxisSize::Depth },
        ],
    }
}

/// The packing of `items` into `bin`: the items longer than the bin's
/// longest length are set aside first, in their order; the others are taken
/// in `packing_order`, starting from the whole bin free.
pub open spec fn pack_spec(bin: Bin, items: Seq<Item>) -> PackingState {
    let start = PackingState {
        placed: Seq::empty(),
        unplaced: items.filter(oversized(bin)),
        free: seq![whole_bin(bin)],
        prev_size: None,
        defragged: false,
    };
    pack_steps(start, packing_order(items.filter(not_oversized(bin))))
}

/// The result of packing one bin.
pub struct PackResult {
    pub bin: Bin,
    /// The placed items, each at its position and in its orientation.
    pub placed: Vec<Item>,
    /// The items that could not be placed.
    pub unplaced: Vec<Item>,
    /// The free spaces left in the bin, smallest volume first.
    pub free_spaces: Vec<Space>,
}

/// Heuristic 3D bin packing for one rectangular bin and items, with
/// axis-aligned rotations only. The result is not guaranteed to be optimal:
/// the problem is NP-hard.
///
/// The corner of the bin and of each item is at its smallest coordinates;
/// X is the width, Y the height (up) and Z the depth.
pub struct BinPacker3D;

impl BinPacker3D {
    /// Packs `items` into one `bin`: items longer than the bin's longest
    /// length are set aside first; the others are taken largest longest
    /// length first, then largest volume first, and each goes into the first
    /// free space, smallest first, that holds it. When the item's size
    /// differs from the previous item's, or when no space holds it, the free
    /// spaces are first defragmented (at most once between two placements).
    pub fn pack(bin: Bin, items: Vec<Item>) -> (r: PackResult)
        requires
            bin.width <= MAX_LENGTH,
            bin.height <= MAX_LENGTH,
            bin.depth <= MAX_LENGTH,
            all_items_ok(items@),
        ensures
            r.bin == bin,
            forall|k: int|
                0 <= k < r.placed@.len() ==> #[trigger] item_in_bin(r.placed@[k], bin) && item_ok(
                    r.placed@[k],
                ),
            item_keys(r.placed@).add(item_keys(r.unplaced@)) == item_keys(items@),
            r.unplaced@.len() >= items@.filter(oversized(bin)).len(),
            r.unplaced@.take(items@.filter(oversized(bin)).len() as int) == items@.filter(
                oversized(bin),
            ),
            r.unplaced@.take(items@.filter(longer_than_bin(bin)).len() as int) == items@.filter(
                longer_than_bin(bin),
            ),
            forall|k: int|
                0 <= k < items@.filter(longer_than_bin(bin)).len() ==> {
                    &&& sorted_triple(lens(#[trigger] r.unplaced@[k].size)).2 > bin.width
                    &&& sorted_triple(lens(r.unplaced@[k].size)).2 > bin.height
                    &&& sorted_triple(lens(r.unplaced@[k].size)).2 > bin.depth
                },
            all_ok(r.free_spaces@),
            all_within(r.free_spaces@, bin_ext(bin)),
            items_volume(r.placed@) + total_volume(r.free_spaces@) == bin_volume(bin),
            by_volume(r.free_spaces@),
            bin_volume(bin) > 0 ==> all_filled(r.free_spaces@),
            no_overlap(r.placed@, r.free_spaces@),
            in_packing_order(r.placed@),
            in_packing_order(r.unplaced@.skip(items@.filter(oversized(bin)).len() as int)),
            r.placed@ == pack_spec(bin, items@).placed,
            r.unplaced@ == pack_spec(bin, items@).unplaced,
            r.free_spaces@ == pack_spec(bin, items@).free,
    {
        let ghost ext = bin_ext(bin);
        let ghost items0 = items@;
        let mut placed: Vec<Item> = Vec::new();
        let mut free_spaces: Vec<Space> = Vec::new();
        free_spaces.push(
            make_space([0, 0, 0], [bin.width, bin.height, bin.depth]),
        );
        // Items larger than the bin can never be placed: set them aside first.
        // They might fit diagonally, but only 90 degree rotations are tried.
        let (kept, unplaced) = split_oversized(items, &bin);
        let mut unplaced = unplaced;
        let ghost over0 = unplaced@;
        proof {
            assert forall|k: int| 0 <= k < kept@.len() implies item_ok(#[trigger] kept@[k]) by {
                let x = kept@[k];
                items0.lemma_filter_contains_rev(not_oversized(bin), x);
                assert(kept@.contains(x));
                assert(items0.contains(x));
            }
        }
        let ghost kept0 = kept@;
        let sorted_items = sort_items(kept);
        let ghost sorted0 = sorted_items@;
        proof {
            lemma_item_keys_permutation(sorted0, kept0);
            assert forall|k: int| 0 <= k < sorted0.len() implies item_ok(#[trigger] sorted0[k]) by {
                lemma_permutation_contains(kept0, sorted0, sorted0[k]);
            }
        }
        let n = sorted_items.len();
        let mut rest = crate::sorting::reversed(sorted_items);
        let mut previously_defragged: bool = false;
        let mut prev_size: Option<[Dimension; 3]> = None;
        let mut i: usize = 0;
        let ghost start = PackingState {
            placed: Seq::empty(),
            unplaced: items0.filter(oversized(bin)),
            free: seq![whole_bin(bin)],
            prev_size: None,
            defragged: false,
        };
        proof {
            assert(free_spaces@[0].size =~= whole_bin(bin).size);
            assert(free_spaces@ =~= seq![whole_bin(bin)]);
            assert(placed@ =~= Seq::<Item>::empty());
            lemma_xyz_of_canonical(free_spaces@[0].size);
            assert(total_volume(free_spaces@) == bin_volume(bin)) by {
                assert(free_spaces@.drop_last() =~= Seq::<Space>::empty());
                reveal_with_fuel(total_volume, 2);
            }
            assert(items_volume(placed@) == 0);
            assert(item_keys(placed@) =~= Multiset::empty()) by {
                broadcast use vstd::seq_lib::group_to_multiset_ensures;
                assert(placed@.map_values(|it: Item| item_key(it)) =~= Seq::empty());
            }
            assert(sorted0.take(0) =~= Seq::<Item>::empty());
            assert(item_keys(sorted0.take(0)) =~= Multiset::empty()) by {
                broadcast use vstd::seq_lib::group_to_multiset_ensures;
                assert(sorted0.take(0).map_values(|it: Item| item_key(it)) =~= Seq::empty());
            }
            assert(unplaced@.take(over0.len() as int) =~= over0);
            assert(unplaced@.skip(over0.len() as int) =~= Seq::<Item>::empty());
        }
        while i < n
            invariant
                n == sorted0.len(),
                i <= n,
                rest@ == sorted0.skip(i as int).reverse(),
                forall|k: int| 0 <= k < sorted0.len() ==> item_ok(#[trigger] sorted0[k]),
                ext == bin_ext(bin),
                packing_ok(bin, placed@, free_spaces@),
                no_overlap(placed@, free_spaces@),
                item_keys(placed@).add(item_keys(unplaced@)) == item_keys(over0).add(
                    item_keys(sorted0.take(i as int)),
                ),
                unplaced@.len() >= over0.len(),
                unplaced@.take(over0.len() as int) == over0,
                in_packing_order(sorted0),
                in_packing_order(placed@),
                ahead_of(placed@, sorted0, i as int),
                in_packing_order(unplaced@.skip(over0.len() as int)),
                ahead_of(unplaced@.skip(over0.len() as int), sorted0, i as int),
                by_volume(free_spaces@),
                bin_volume(bin) > 0 ==> all_filled(free_spaces@),
                start == (PackingState {
                    placed: Seq::empty(),
                    unplaced: items0.filter(oversized(bin)),
                    free: seq![whole_bin(bin)],
                    prev_size: None,
                    defragged: false,
                }),
                sorted0 == packing_order(items0.filter(not_oversized(bin))),
                pack_steps(start, sorted0.take(i as int)) == (PackingState {
                    placed: placed@,
                    unplaced: unplaced@,
                    free: free_spaces@,
                    prev_size: prev_size,
                    defragged: previously_defragged,
                }),
            decreases n - i,
        {
            proof {
                assert(sorted0.skip(i as int).reverse().last() == sorted0[i as int]);
            }
            let item = rest.pop().unwrap();
            proof {
                assert(rest@ =~= sorted0.skip(i + 1).reverse());
                assert(sorted0.take(i + 1) =~= sorted0.take(i as int).push(item));
                lemma_item_keys_push(sorted0.take(i as int), item);
            }
            let ghost st = PackingState {
                placed: placed@,
                unplaced: unplaced@,
                free: free_spaces@,
                prev_size: prev_size,
                defragged: previously_defragged,
            };
            let ghost changed = match prev_size {
                Some(p) => !same_size_spec(item.size, p),
                None => false,
            };
            let mut best_fit: Option<usize> = None;
            // Channels built for items of one size waste space once the items
            // get smaller: defragment whenever the size of the items changes.
            match &prev_size {
                Some(prev) => {
                    if !item.is_same_size(prev) {
                        let ghost before = free_spaces@;
                        free_spaces = Self::defrag(&free_spaces, Ghost(ext));
                        proof {
                            lemma_regrouped_no_overlap(placed@, before, free_spaces@);
                        }
                        previously_defragged = true;
                    }
                },
                None => {},
            }
            let ghost free1 = free_spaces@;
            let ghost defragged1 = previously_defragged;
            // Look for the first free space that holds the item.
            best_fit = first_fit(&free_spaces, &item);
            let ghost again = best_fit is None && !previously_defragged;
            // None holds it: defragment the spaces, once, and look again.
            if best_fit.is_none() && !previously_defragged {
                let ghost before = free_spaces@;
                free_spaces = Self::defrag(&free_spaces, Ghost(ext));
                proof {
                    lemma_regrouped_no_overlap(placed@, before, free_spaces@);
                }
                previously_defragged = true;
                best_fit = first_fit(&free_spaces, &item);
            }
            let ghost free2 = free_spaces@;
            prev_size = Some(item.size);
            proof {
                assert(free1 == if changed { defrag_spec(st.free) } else { st.free });
                assert(defragged1 == (changed || st.defragged));
                assert(free2 == if again { defrag_spec(free1) } else { free1 });
            }
            match best_fit {
                Some(index) => {
                    let ghost old_placed = placed@;
                    place_item(&mut placed, &mut free_spaces, index, item, Ghost(bin));
                    proof {
                        assert(placed@ =~= old_placed.push(placed@.last()));
                        lemma_item_keys_push(old_placed, placed@.last());
                        assert(item_keys(placed@) == item_keys(old_placed).insert(item_key(item)));
                        assert(item_keys(sorted0.take(i + 1)) == item_keys(sorted0.take(i as int)).insert(item_key(item)));
                        broadcast use vstd::multiset::group_multiset_axioms;
                        lemma_insert_add(item_keys(old_placed), item_keys(unplaced@), item_keys(over0), item_keys(sorted0.take(i as int)), item_key(item));
                        lemma_order_push(old_placed, sorted0, i as int, placed@.last());
                        assert(ahead_of(unplaced@.skip(over0.len() as int), sorted0, i + 1));
                    }
                    previously_defragged = false;
                    proof {
                        assert(first_fit_spec(free2, item) == Some(index as int));
                        reveal(pack_step);
                        assert(pack_step(st, item) == (PackingState {
                            placed: placed@,
                            unplaced: unplaced@,
                            free: free_spaces@,
                            prev_size: prev_size,
                            defragged: previously_defragged,
                        }));
                    }
                },
                None => {
                    let ghost old_unplaced = unplaced@;
                    unplaced.push(item);
                    proof {
                        lemma_item_keys_push(old_unplaced, item);
                        assert(unplaced@.take(over0.len() as int) =~= old_unplaced.take(over0.len() as int));
                        lemma_add_insert(item_keys(placed@), item_keys(old_unplaced), item_keys(over0), item_keys(sorted0.take(i as int)), item_key(item));
                        assert(unplaced@.skip(over0.len() as int) =~= old_unplaced.skip(over0.len() as int).push(item));
                        lemma_order_push(old_unplaced.skip(over0.len() as int), sorted0, i as int, item);
                        assert(ahead_of(placed@, sorted0, i + 1));
                    }
                    proof {
                        assert(first_fit_spec(free2, item) is None);
                        reveal(pack_step);
                        assert(pack_step(st, item) == (PackingState {
                            placed: placed@,
                            unplaced: unplaced@,
                            free: free_spaces@,
                            prev_size: prev_size,
                            defragged: previously_defragged,
                        }));
                    }
                },
            }
            proof {
                assert(sorted0.take(i + 1).drop_last() =~= sorted0.take(i as int));
                assert(pack_steps(start, sorted0.take(i + 1)) == pack_step(st, item));
            }
            i += 1;
        }
        proof {
            assert(sorted0.take(n as int) =~= sorted0);
            lemma_oversized_longer_than_bin(bin);
            let over = items0.filter(longer_than_bin(bin));
            assert forall|k: int| 0 <= k < over.len() implies {
                &&& sorted_triple(lens(#[trigger] unplaced@[k].size)).2 > bin.width
                &&& sorted_triple(lens(unplaced@[k].size)).2 > bin.height
                &&& sorted_triple(lens(unplaced@[k].size)).2 > bin.depth
            } by {
                assert(unplaced@[k] == unplaced@.take(over.len() as int)[k]);
                items0.lemma_filter_pred(longer_than_bin(bin), k);
            }
        }
        PackResult { bin, placed, unplaced, free_spaces }
    }
}

} // verus!
