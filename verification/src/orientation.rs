//! Orienting an item in a free space, and splitting what it leaves of the space.

use vstd::prelude::*;
use crate::free_space::{apart_from_all, apart_on, boxes_apart, space_apart, spaces_disjoint, total_volume};
use crate::geometry::{
    sorted_dims, with3,
    axis_pos, bounded, canonical, dims_xyz, distinct_axes, index, index_mut, is_perm3,
    lemma_mul3_any_order, lemma_product_perm, lemma_volume_sorted, lemma_xyz_of_canonical,
    lemma_xyz_of_distinct, lens, sort_dims_ascending, sorted_triple, volume_of, xyz_int,
    AxisSize, Dimension, MAX_LENGTH,
};
use crate::packer::{
    box_inside, fits_spec, item_ok, space_inside, space_ok, BinPacker3D, Dimensional, Item, Space,
};

verus! {

/// The side (among the space's sides sorted shortest first) along which the
/// item's longest length goes: the first side that holds it twice or matches
/// it exactly, and failing that the first side that holds it.
#[verifier::opaque]
pub open spec fn side_1_spec(b: Seq<int>, longest: int) -> int {
    if b[0] >= 2 * longest || b[0] == longest {
        0
    } else if b[1] >= 2 * longest || b[1] == longest {
        1
    } else if b[2] >= 2 * longest || b[2] == longest {
        2
    } else if b[0] >= longest {
        0
    } else if b[1] >= longest {
        1
    } else {
        2
    }
}

/// The sides for the item's middle and shortest lengths, given the side of
/// its longest: the middle length goes on the shorter remaining side when it
/// fits there, else on the longer one; the shortest length takes the other.
#[verifier::opaque]
pub open spec fn sides_2_3_spec(a: Seq<int>, b: Seq<int>, side_1: int) -> (int, int) {
    let other_1 = (side_1 + 1) % 3;
    let other_2 = (side_1 + 2) % 3;
    let shorter = if b[other_1] < b[other_2] {
        other_1
    } else {
        other_2
    };
    let longer = if b[other_1] < b[other_2] {
        other_2
    } else {
        other_1
    };
    if a[1] <= b[shorter] {
        (shorter, longer)
    } else {
        (longer, shorter)
    }
}

/// Picks the side of `b_dims` (sorted shortest first) for a longest length
/// `longest` that the longest side holds.
pub(crate) fn choose_side_1(b_dims: &[Dimension; 3], longest: u64) -> (r: usize)
    requires
        longest <= MAX_LENGTH,
        b_dims[2].length >= longest,
    ensures
        r == side_1_spec(lens(*b_dims), longest as int),
        r < 3,
{
    let mut i: usize = 0;
    while i < 3
        invariant
            i <= 3,
            longest <= MAX_LENGTH,
            forall|k: int|
                0 <= k < i ==> !(b_dims[k].length >= 2 * longest || b_dims[k].length == longest),
        decreases 3 - i,
    {
        reveal(side_1_spec);
        let b = b_dims[i].length;
        if b >= 2 * longest || b == longest {
            return i;
        }
        i += 1;
    }
    let mut i: usize = 0;
    while i < 3
        invariant
            i <= 3,
            forall|k: int|
                0 <= k < 3 ==> !(b_dims[k].length >= 2 * longest || b_dims[k].length == longest),
            forall|k: int| 0 <= k < i ==> b_dims[k].length < longest,
        decreases 3 - i,
    {
        reveal(side_1_spec);
        if b_dims[i].length >= longest {
            return i;
        }
        i += 1;
    }
    reveal(side_1_spec);
    2
}

/// A space at `position_xyz` whose width, height and depth are `size`.
pub(crate) fn make_space(position_xyz: [u64; 3], size: [u64; 3]) -> (r: Space)
    ensures
        r.position_xyz == position_xyz,
        canonical(r.size),
        r.size[0].length == size[0],
        r.size[1].length == size[1],
        r.size[2].length == size[2],
{
    Space {
        position_xyz,
        size: [
            Dimension { length: size[0], axis: AxisSize::Width },
            Dimension { length: size[1], axis: AxisSize::Height },
            Dimension { length: size[2], axis: AxisSize::Depth },
        ],
    }
}

/// Appends `s` to `v` unless its volume is 0.
pub(crate) fn push_unless_empty(v: &mut Vec<Space>, s: Space)
    requires
        bounded(s.size),
    ensures
        final(v)@ == push_nonempty(old(v)@, s),
        total_volume(final(v)@) == total_volume(old(v)@) + volume_of(s.size),
{
    if s.volume() != 0 {
        v.push(s);
        assert(v@.drop_last() =~= old(v)@);
    }
}

/// The sides chosen for the item's lengths hold them, and they are three
/// different sides, when the item fits the space.
pub(crate) proof fn lemma_sides_hold(a: Seq<int>, b: Seq<int>)
    requires
        a.len() == 3,
        b.len() == 3,
        0 <= a[0] <= a[1] <= a[2],
        b[0] <= b[1] <= b[2],
        b[0] >= a[0],
        b[1] >= a[1],
        b[2] >= a[2],
    ensures
        ({
            let s1 = side_1_spec(b, a[2]);
            let s2 = sides_2_3_spec(a, b, s1).0;
            let s3 = sides_2_3_spec(a, b, s1).1;
            &&& is_perm3(s1, s2, s3)
            &&& b[s1] >= a[2]
            &&& b[s2] >= a[1]
            &&& b[s3] >= a[0]
        }),
{
    reveal(side_1_spec);
    reveal(sides_2_3_spec);
}

/// The triple holding `x` at position `i`, `y` at `j` and `z` at `k`.
pub open spec fn at3(i: int, j: int, k: int, x: int, y: int, z: int) -> Seq<int> {
    seq![0int, 0int, 0int].update(i, x).update(j, y).update(k, z)
}

/// The product of the values of a triple.
pub open spec fn product(t: Seq<int>) -> int {
    t[0] * t[1] * t[2]
}

/// Where `at3` puts its values, and their product.
pub(crate) proof fn lemma_at3(i: int, j: int, k: int, x: int, y: int, z: int)
    requires
        is_perm3(i, j, k),
    ensures
        at3(i, j, k, x, y, z).len() == 3,
        at3(i, j, k, x, y, z)[i] == x,
        at3(i, j, k, x, y, z)[j] == y,
        at3(i, j, k, x, y, z)[k] == z,
        product(at3(i, j, k, x, y, z)) == x * y * z,
{
    lemma_product_perm(at3(i, j, k, x, y, z), i, j, k);
}

/// Cutting a space of lengths `s1`, `s2`, `s3` around an item of lengths `l`,
/// `a1`, `a0` placed at its corner, either way, leaves blocks whose volumes
/// add up to the space's volume less the item's.
pub(crate) proof fn lemma_split_volumes(s1: int, s2: int, s3: int, l: int, a1: int, a0: int)
    ensures
        l * a1 * a0 + (s1 - l) * a1 * a0 + s1 * s2 * (s3 - a0) + s1 * (s2 - a1) * a0 == s1 * s2 * s3,
        l * a1 * a0 + (s1 - l) * a1 * a0 + s1 * (s2 - a1) * s3 + s1 * a1 * (s3 - a0) == s1 * s2 * s3,
{
    assert((s1 - l) * a1 * a0 == s1 * a1 * a0 - l * a1 * a0) by (nonlinear_arith);
    assert(s1 * s2 * (s3 - a0) == s1 * s2 * s3 - s1 * s2 * a0) by (nonlinear_arith);
    assert(s1 * (s2 - a1) * a0 == s1 * s2 * a0 - s1 * a1 * a0) by (nonlinear_arith);
    assert(s1 * (s2 - a1) * s3 == s1 * s2 * s3 - s1 * a1 * s3) by (nonlinear_arith);
    assert(s1 * a1 * (s3 - a0) == s1 * a1 * s3 - s1 * a1 * a0) by (nonlinear_arith);
}

/// The space at `position_xyz` moved by `shift` along axis `ax`, whose
/// width, height and depth are `l`.
pub open spec fn block_spec(position_xyz: [u64; 3], ax: int, shift: int, l: Seq<int>) -> Space {
    Space {
        position_xyz: with3(position_xyz, ax, (position_xyz[ax] + shift) as u64),
        size: [
            Dimension { length: l[0] as u64, axis: AxisSize::Width },
            Dimension { length: l[1] as u64, axis: AxisSize::Height },
            Dimension { length: l[2] as u64, axis: AxisSize::Depth },
        ],
    }
}

/// A block at `position_xyz` moved by `shift` along `axis`, with the given
/// width, height and depth.
pub(crate) fn shifted_block(position_xyz: [u64; 3], axis: AxisSize, shift: u64, size: [u64; 3]) -> (r: Space)
    requires
        position_xyz@[axis_pos(axis)] + shift <= u64::MAX,
    ensures
        r.position_xyz@ == position_xyz@.update(
            axis_pos(axis),
            (position_xyz@[axis_pos(axis)] + shift) as u64,
        ),
        canonical(r.size),
        lens(r.size) == seq![size[0] as int, size[1] as int, size[2] as int],
        r == block_spec(position_xyz, axis_pos(axis), shift as int, seq![size[0] as int, size[1] as int, size[2] as int]),
{
    let mut xyz = position_xyz;
    let c = index(&xyz, axis);
    index_mut(&mut xyz, axis, c + shift);
    let r = make_space(xyz, size);
    assert(lens(r.size) =~= seq![size[0] as int, size[1] as int, size[2] as int]);
    assert(r.position_xyz =~= block_spec(position_xyz, axis_pos(axis), shift as int, seq![size[0] as int, size[1] as int, size[2] as int]).position_xyz);
    assert(r.size =~= block_spec(position_xyz, axis_pos(axis), shift as int, seq![size[0] as int, size[1] as int, size[2] as int]).size);
    r
}

/// The dimensions of a canonical space, sorted, each stand at their axis;
/// sorted, the space's and a fitting item's lengths compare term by term.
pub(crate) proof fn lemma_sorted_fit(space: Space, item: Item, b_dims: [Dimension; 3], item_dims: [Dimension; 3])
    requires
        space_ok(space),
        item_ok(item),
        fits_spec(xyz_int(space.size), xyz_int(item.size)),
        lens(b_dims) == seq![
            sorted_triple(lens(space.size)).0,
            sorted_triple(lens(space.size)).1,
            sorted_triple(lens(space.size)).2,
        ],
        lens(item_dims) == seq![
            sorted_triple(lens(item.size)).0,
            sorted_triple(lens(item.size)).1,
            sorted_triple(lens(item.size)).2,
        ],
        distinct_axes(b_dims),
        b_dims[0] == space.size[0] || b_dims[0] == space.size[1] || b_dims[0] == space.size[2],
        b_dims[1] == space.size[0] || b_dims[1] == space.size[1] || b_dims[1] == space.size[2],
        b_dims[2] == space.size[0] || b_dims[2] == space.size[1] || b_dims[2] == space.size[2],
    ensures
        0 <= lens(item_dims)[0] <= lens(item_dims)[1] <= lens(item_dims)[2],
        lens(b_dims)[0] <= lens(b_dims)[1] <= lens(b_dims)[2],
        lens(b_dims)[0] >= lens(item_dims)[0],
        lens(b_dims)[1] >= lens(item_dims)[1],
        lens(b_dims)[2] >= lens(item_dims)[2],
        b_dims[0].length == lens(space.size)[axis_pos(b_dims[0].axis)],
        b_dims[1].length == lens(space.size)[axis_pos(b_dims[1].axis)],
        b_dims[2].length == lens(space.size)[axis_pos(b_dims[2].axis)],
{
    lemma_xyz_of_canonical(space.size);
    lemma_xyz_of_distinct(item.size);
}

/// The orientation built from sides `s1`, `s2`, `s3` of the sorted space
/// dimensions `b_dims` puts the item's lengths, longest to shortest, along
/// three different axes, each no longer than the space along that axis.
pub(crate) proof fn lemma_orientation(
    space: Space,
    b_dims: [Dimension; 3],
    item_dims: [Dimension; 3],
    s1: int,
    s2: int,
    s3: int,
    orientation: [Dimension; 3],
)
    requires
        canonical(space.size),
        distinct_axes(b_dims),
        is_perm3(s1, s2, s3),
        b_dims[0].length == lens(space.size)[axis_pos(b_dims[0].axis)],
        b_dims[1].length == lens(space.size)[axis_pos(b_dims[1].axis)],
        b_dims[2].length == lens(space.size)[axis_pos(b_dims[2].axis)],
        b_dims[s1].length >= item_dims[2].length,
        b_dims[s2].length >= item_dims[1].length,
        b_dims[s3].length >= item_dims[0].length,
        orientation[0] == (Dimension { length: item_dims[0].length, axis: b_dims[s3].axis }),
        orientation[1] == (Dimension { length: item_dims[1].length, axis: b_dims[s2].axis }),
        orientation[2] == (Dimension { length: item_dims[2].length, axis: b_dims[s1].axis }),
    ensures
        distinct_axes(orientation),
        is_perm3(
            axis_pos(orientation[2].axis),
            axis_pos(orientation[1].axis),
            axis_pos(orientation[0].axis),
        ),
        xyz_int(orientation) == at3(
            axis_pos(orientation[2].axis),
            axis_pos(orientation[1].axis),
            axis_pos(orientation[0].axis),
            item_dims[2].length as int,
            item_dims[1].length as int,
            item_dims[0].length as int,
        ),
        lens(space.size)[axis_pos(orientation[2].axis)] >= item_dims[2].length,
        lens(space.size)[axis_pos(orientation[1].axis)] >= item_dims[1].length,
        lens(space.size)[axis_pos(orientation[0].axis)] >= item_dims[0].length,
{
    let ax1 = axis_pos(orientation[2].axis);
    let ax2 = axis_pos(orientation[1].axis);
    let ax3 = axis_pos(orientation[0].axis);
    lemma_xyz_of_distinct(orientation);
    lemma_at3(ax1, ax2, ax3, item_dims[2].length as int, item_dims[1].length as int, item_dims[0].length as int);
    assert(xyz_int(orientation) =~= at3(ax1, ax2, ax3, item_dims[2].length as int, item_dims[1].length as int, item_dims[0].length as int));
}

/// A block moved from `space`'s position by `shift` along axis `ax`, that
/// ends within the space along every axis, lies inside the space.
pub(crate) proof fn lemma_block_inside(space: Space, blk: Space, ax: int, shift: int)
    requires
        space_ok(space),
        canonical(blk.size),
        0 <= ax < 3,
        0 <= shift,
        blk.position_xyz@ == space.position_xyz@.update(ax, (space.position_xyz@[ax] + shift) as u64),
        space.position_xyz@[ax] + shift <= u64::MAX,
        lens(blk.size)[ax] + shift <= lens(space.size)[ax],
        forall|k: int| 0 <= k < 3 && k != ax ==> lens(blk.size)[k] <= lens(space.size)[k],
    ensures
        space_ok(blk),
        space_inside(blk, space),
{
    lemma_xyz_of_canonical(space.size);
    lemma_xyz_of_canonical(blk.size);
    assert(lens(blk.size)[0] <= lens(space.size)[0] || ax == 0);
    assert(lens(blk.size)[1] <= lens(space.size)[1] || ax == 1);
    assert(lens(blk.size)[2] <= lens(space.size)[2] || ax == 2);
}

/// An item put at `space`'s position with its longest length `dim_1`, its
/// middle length `dim_2` and its shortest `dim_3` lies along three different
/// axes and within the space.
pub open spec fn placed_within(space: Space, dim_1: Dimension, dim_2: Dimension, dim_3: Dimension) -> bool {
    &&& space_ok(space)
    &&& is_perm3(axis_pos(dim_1.axis), axis_pos(dim_2.axis), axis_pos(dim_3.axis))
    &&& lens(space.size)[axis_pos(dim_1.axis)] >= dim_1.length
    &&& lens(space.size)[axis_pos(dim_2.axis)] >= dim_2.length
    &&& lens(space.size)[axis_pos(dim_3.axis)] >= dim_3.length
}

/// The lengths of a block cut from `space` around the placed item, given by
/// axis of the item's longest, middle and shortest length.
pub open spec fn cut_lens(dim_1: Dimension, dim_2: Dimension, dim_3: Dimension, x: int, y: int, z: int) -> Seq<int> {
    at3(axis_pos(dim_1.axis), axis_pos(dim_2.axis), axis_pos(dim_3.axis), x, y, z)
}

/// The orientation of an item of size `item` in a space of size `space`:
/// with the space's sides and the item's lengths each sorted shortest first,
/// the item's longest length goes along the side that `side_1_spec` picks
/// and its other lengths along the sides that `sides_2_3_spec` picks. Listed
/// shortest first.
pub open spec fn orientation_spec(space: [Dimension; 3], item: [Dimension; 3]) -> [Dimension; 3] {
    let b = sorted_dims(space);
    let a = sorted_dims(item);
    let s1 = side_1_spec(lens(b), a[2].length as int);
    let s2 = sides_2_3_spec(lens(a), lens(b), s1).0;
    let s3 = sides_2_3_spec(lens(a), lens(b), s1).1;
    [
        Dimension { length: a[0].length, axis: b[s3].axis },
        Dimension { length: a[1].length, axis: b[s2].axis },
        Dimension { length: a[2].length, axis: b[s1].axis },
    ]
}

/// The block beyond an item placed in `space` along its longest length.
pub open spec fn beyond_spec(space: Space, dim_1: Dimension, dim_2: Dimension, dim_3: Dimension) -> Space {
    block_spec(space.position_xyz, axis_pos(dim_1.axis), dim_1.length as int, cut_lens(dim_1, dim_2, dim_3,
        lens(space.size)[axis_pos(dim_1.axis)] - dim_1.length, dim_2.length as int, dim_3.length as int))
}

/// The two blocks of the first way to cut what an item placed in `space`
/// leaves beside it.
pub open spec fn cut_a_spec(space: Space, dim_1: Dimension, dim_2: Dimension, dim_3: Dimension) -> (Space, Space) {
    let sp = lens(space.size);
    (
        block_spec(space.position_xyz, axis_pos(dim_3.axis), dim_3.length as int, cut_lens(dim_1, dim_2, dim_3,
            sp[axis_pos(dim_1.axis)], sp[axis_pos(dim_2.axis)], sp[axis_pos(dim_3.axis)] - dim_3.length)),
        block_spec(space.position_xyz, axis_pos(dim_2.axis), dim_2.length as int, cut_lens(dim_1, dim_2, dim_3,
            sp[axis_pos(dim_1.axis)], sp[axis_pos(dim_2.axis)] - dim_2.length, dim_3.length as int)),
    )
}

/// The two blocks of the second way to cut what an item placed in `space`
/// leaves beside it.
pub open spec fn cut_b_spec(space: Space, dim_1: Dimension, dim_2: Dimension, dim_3: Dimension) -> (Space, Space) {
    let sp = lens(space.size);
    (
        block_spec(space.position_xyz, axis_pos(dim_2.axis), dim_2.length as int, cut_lens(dim_1, dim_2, dim_3,
            sp[axis_pos(dim_1.axis)], sp[axis_pos(dim_2.axis)] - dim_2.length, sp[axis_pos(dim_3.axis)])),
        block_spec(space.position_xyz, axis_pos(dim_3.axis), dim_3.length as int, cut_lens(dim_1, dim_2, dim_3,
            sp[axis_pos(dim_1.axis)], dim_2.length as int, sp[axis_pos(dim_3.axis)] - dim_3.length)),
    )
}

/// Spaces of a volume above 0.
pub open spec fn nonempty() -> spec_fn(Space) -> bool {
    |s: Space| volume_of(s.size) != 0
}

/// What an item placed in `space` with its longest length `dim_1`, its
/// middle length `dim_2` and its shortest `dim_3` leaves of the space: the
/// block beyond it along its longest length, then the blocks of the cut
/// whose first block is the smaller (the second cut on a tie), without the
/// blocks of volume 0.
pub open spec fn split_spec(space: Space, dim_1: Dimension, dim_2: Dimension, dim_3: Dimension) -> Seq<Space> {
    let (a2, a3) = cut_a_spec(space, dim_1, dim_2, dim_3);
    let (b2, b3) = cut_b_spec(space, dim_1, dim_2, dim_3);
    let pair = if volume_of(a2.size) < volume_of(b2.size) {
        seq![a2, a3]
    } else {
        seq![b2, b3]
    };
    (seq![beyond_spec(space, dim_1, dim_2, dim_3)] + pair).filter(nonempty())
}

/// `s`, and `x` after it unless its volume is 0.
pub open spec fn push_nonempty(s: Seq<Space>, x: Space) -> Seq<Space> {
    if volume_of(x.size) != 0 {
        s.push(x)
    } else {
        s
    }
}

/// Appending three spaces, each unless its volume is 0, keeps those of the
/// three whose volume is not 0.
proof fn lemma_filter_three(a: Space, b: Space, c: Space)
    ensures
        push_nonempty(push_nonempty(push_nonempty(Seq::empty(), a), b), c) == (seq![a] + seq![b, c]).filter(nonempty()),
{
    let p = nonempty();
    let e = Seq::<Space>::empty();
    e.lemma_filter_push(a, p);
    e.push(a).lemma_filter_push(b, p);
    e.push(a).push(b).lemma_filter_push(c, p);
    assert(e.filter(p) =~= e) by {
        reveal(Seq::filter);
    }
    assert(e.push(a).push(b).push(c) =~= seq![a] + seq![b, c]);
}

/// Two boxes apart along one axis are apart.
proof fn lemma_apart_along(p: [u64; 3], e: Seq<int>, q: [u64; 3], f: Seq<int>, k: int)
    requires
        0 <= k < 3,
        apart_on(p[k] as int, e[k], q[k] as int, f[k]),
    ensures
        boxes_apart(p, e, q, f),
{
}

/// Where the block `block_spec(position_xyz, ax, shift, l)` lies, axis by axis.
proof fn lemma_block_box(position_xyz: [u64; 3], ax: int, shift: int, l: Seq<int>)
    requires
        0 <= ax < 3,
        0 <= shift,
        position_xyz[ax] + shift <= u64::MAX,
        l.len() == 3,
        0 <= l[0] <= u64::MAX,
        0 <= l[1] <= u64::MAX,
        0 <= l[2] <= u64::MAX,
    ensures
        canonical(block_spec(position_xyz, ax, shift, l).size),
        xyz_int(block_spec(position_xyz, ax, shift, l).size) == l,
        forall|k: int|
            0 <= k < 3 ==> #[trigger] block_spec(position_xyz, ax, shift, l).position_xyz[k]
                == position_xyz[k] + if k == ax { shift } else { 0 },
{
    let b = block_spec(position_xyz, ax, shift, l);
    lemma_xyz_of_canonical(b.size);
    assert(xyz_int(b.size) =~= l);
}

/// Spaces apart from each other, and from a box, as a sequence.
proof fn lemma_apart_seq(t: Seq<Space>, p: [u64; 3], e: Seq<int>)
    requires
        t.len() <= 3,
        forall|i: int, j: int|
            0 <= i < j < t.len() ==> space_apart(t[i], t[j].position_xyz, xyz_int(t[j].size)),
        forall|i: int| 0 <= i < t.len() ==> space_apart(t[i], p, e),
    ensures
        spaces_disjoint(t),
        apart_from_all(t, p, e),
{
    assert forall|i: int, j: int|
        0 <= i < t.len() && 0 <= j < t.len() && i != j implies #[trigger] space_apart(
        t[i],
        t[j].position_xyz,
        xyz_int(t[j].size),
    ) by {
        if i < j {
            assert(space_apart(t[i], t[j].position_xyz, xyz_int(t[j].size)));
        } else {
            assert(space_apart(t[j], t[i].position_xyz, xyz_int(t[i].size)));
        }
    }
}

/// Three spaces apart from each other stay apart once those of volume 0 are
/// dropped, and so do three spaces apart from a box.
#[verifier::rlimit(30)]
proof fn lemma_three_apart(a: Space, b: Space, c: Space, p: [u64; 3], e: Seq<int>)
    requires
        space_apart(a, b.position_xyz, xyz_int(b.size)),
        space_apart(a, c.position_xyz, xyz_int(c.size)),
        space_apart(b, c.position_xyz, xyz_int(c.size)),
        space_apart(a, p, e),
        space_apart(b, p, e),
        space_apart(c, p, e),
    ensures
        spaces_disjoint((seq![a] + seq![b, c]).filter(nonempty())),
        apart_from_all((seq![a] + seq![b, c]).filter(nonempty()), p, e),
{
    lemma_filter_three(a, b, c);
    let t = push_nonempty(push_nonempty(push_nonempty(Seq::empty(), a), b), c);
    let t1 = push_nonempty(Seq::empty(), a);
    let t2 = push_nonempty(t1, b);
    assert(t == push_nonempty(t2, c));
    if volume_of(a.size) != 0 {
        assert(t1 =~= seq![a]);
        if volume_of(b.size) != 0 {
            assert(t2 =~= seq![a, b]);
            if volume_of(c.size) != 0 {
                assert(t =~= seq![a, b, c]);
            } else {
                assert(t =~= seq![a, b]);
            }
        } else {
            assert(t2 =~= seq![a]);
            if volume_of(c.size) != 0 {
                assert(t =~= seq![a, c]);
            } else {
                assert(t =~= seq![a]);
            }
        }
    } else {
        assert(t1 =~= Seq::<Space>::empty());
        if volume_of(b.size) != 0 {
            assert(t2 =~= seq![b]);
            if volume_of(c.size) != 0 {
                assert(t =~= seq![b, c]);
            } else {
                assert(t =~= seq![b]);
            }
        } else {
            assert(t2 =~= Seq::<Space>::empty());
            if volume_of(c.size) != 0 {
                assert(t =~= seq![c]);
            } else {
                assert(t =~= Seq::<Space>::empty());
            }
        }
    }
    lemma_apart_seq(t, p, e);
}

/// The blocks that an item placed in `space` leaves do not overlap each
/// other, nor the item.
pub(crate) proof fn lemma_split_apart(space: Space, dim_1: Dimension, dim_2: Dimension, dim_3: Dimension)
    requires
        placed_within(space, dim_1, dim_2, dim_3),
    ensures
        spaces_disjoint(split_spec(space, dim_1, dim_2, dim_3)),
        apart_from_all(
            split_spec(space, dim_1, dim_2, dim_3),
            space.position_xyz,
            cut_lens(dim_1, dim_2, dim_3, dim_1.length as int, dim_2.length as int, dim_3.length as int),
        ),
{
    let pos = space.position_xyz;
    let sp = lens(space.size);
    let ax1 = axis_pos(dim_1.axis);
    let ax2 = axis_pos(dim_2.axis);
    let ax3 = axis_pos(dim_3.axis);
    let l = dim_1.length as int;
    let a1 = dim_2.length as int;
    let a0 = dim_3.length as int;
    let item_ext = cut_lens(dim_1, dim_2, dim_3, l, a1, a0);
    lemma_at3(ax1, ax2, ax3, l, a1, a0);
    let e_beyond = cut_lens(dim_1, dim_2, dim_3, sp[ax1] - l, a1, a0);
    let e_a2 = cut_lens(dim_1, dim_2, dim_3, sp[ax1], sp[ax2], sp[ax3] - a0);
    let e_a3 = cut_lens(dim_1, dim_2, dim_3, sp[ax1], sp[ax2] - a1, a0);
    let e_b2 = cut_lens(dim_1, dim_2, dim_3, sp[ax1], sp[ax2] - a1, sp[ax3]);
    let e_b3 = cut_lens(dim_1, dim_2, dim_3, sp[ax1], a1, sp[ax3] - a0);
    lemma_at3(ax1, ax2, ax3, sp[ax1] - l, a1, a0);
    lemma_at3(ax1, ax2, ax3, sp[ax1], sp[ax2], sp[ax3] - a0);
    lemma_at3(ax1, ax2, ax3, sp[ax1], sp[ax2] - a1, a0);
    lemma_at3(ax1, ax2, ax3, sp[ax1], sp[ax2] - a1, sp[ax3]);
    lemma_at3(ax1, ax2, ax3, sp[ax1], a1, sp[ax3] - a0);
    lemma_block_box(pos, ax1, l, e_beyond);
    lemma_block_box(pos, ax3, a0, e_a2);
    lemma_block_box(pos, ax2, a1, e_a3);
    lemma_block_box(pos, ax2, a1, e_b2);
    lemma_block_box(pos, ax3, a0, e_b3);
    let bb = beyond_spec(space, dim_1, dim_2, dim_3);
    let (a2, a3) = cut_a_spec(space, dim_1, dim_2, dim_3);
    let (b2, b3) = cut_b_spec(space, dim_1, dim_2, dim_3);
    assert(bb == block_spec(pos, ax1, l, e_beyond));
    assert(a2 == block_spec(pos, ax3, a0, e_a2));
    assert(a3 == block_spec(pos, ax2, a1, e_a3));
    assert(b2 == block_spec(pos, ax2, a1, e_b2));
    assert(b3 == block_spec(pos, ax3, a0, e_b3));
    assert(bb.position_xyz[ax1] == pos[ax1] + l);
    assert(a2.position_xyz[ax3] == pos[ax3] + a0);
    assert(a3.position_xyz[ax2] == pos[ax2] + a1);
    assert(b2.position_xyz[ax2] == pos[ax2] + a1);
    assert(b3.position_xyz[ax3] == pos[ax3] + a0);
    assert(bb.position_xyz[ax2] == pos[ax2] && bb.position_xyz[ax3] == pos[ax3]);
    assert(a3.position_xyz[ax3] == pos[ax3]);
    assert(b3.position_xyz[ax2] == pos[ax2]);
    lemma_apart_along(bb.position_xyz, e_beyond, pos, item_ext, ax1);
    lemma_apart_along(a2.position_xyz, e_a2, pos, item_ext, ax3);
    lemma_apart_along(a3.position_xyz, e_a3, pos, item_ext, ax2);
    lemma_apart_along(b2.position_xyz, e_b2, pos, item_ext, ax2);
    lemma_apart_along(b3.position_xyz, e_b3, pos, item_ext, ax3);
    lemma_apart_along(bb.position_xyz, e_beyond, a2.position_xyz, e_a2, ax3);
    lemma_apart_along(bb.position_xyz, e_beyond, a3.position_xyz, e_a3, ax2);
    lemma_apart_along(a2.position_xyz, e_a2, a3.position_xyz, e_a3, ax3);
    lemma_apart_along(bb.position_xyz, e_beyond, b2.position_xyz, e_b2, ax2);
    lemma_apart_along(bb.position_xyz, e_beyond, b3.position_xyz, e_b3, ax3);
    lemma_apart_along(b2.position_xyz, e_b2, b3.position_xyz, e_b3, ax2);
    if volume_of(a2.size) < volume_of(b2.size) {
        lemma_three_apart(bb, a2, a3, pos, item_ext);
    } else {
        lemma_three_apart(bb, b2, b3, pos, item_ext);
    }
}

/// The block beyond the item along its longest length.
pub(crate) fn block_beyond(space: &Space, dim_1: Dimension, dim_2: Dimension, dim_3: Dimension) -> (r: Space)
    requires
        placed_within(*space, dim_1, dim_2, dim_3),
    ensures
        space_ok(r),
        space_inside(r, *space),
        lens(r.size) == cut_lens(dim_1, dim_2, dim_3,
            lens(space.size)[axis_pos(dim_1.axis)] - dim_1.length, dim_2.length as int, dim_3.length as int),
        r == beyond_spec(*space, dim_1, dim_2, dim_3),
{
    let b_dims_xyz = space.size_xyz();
    let orientation = [dim_3, dim_2, dim_1];
    let orientation_xyz = dims_xyz(&orientation);
    let ghost sp = lens(space.size);
    let ghost ax1 = axis_pos(dim_1.axis);
    let ghost ax2 = axis_pos(dim_2.axis);
    let ghost ax3 = axis_pos(dim_3.axis);
    proof {
        lemma_xyz_of_canonical(space.size);
        lemma_xyz_of_distinct(orientation);
    }
    let mut size = orientation_xyz;
    index_mut(&mut size, dim_1.axis, index(&b_dims_xyz, dim_1.axis) - dim_1.length);
    let block_1 = shifted_block(space.position_xyz, dim_1.axis, dim_1.length, size);
    proof {
        lemma_at3(ax1, ax2, ax3, sp[ax1] - dim_1.length, dim_2.length as int, dim_3.length as int);
        assert(lens(block_1.size) =~= at3(ax1, ax2, ax3, sp[ax1] - dim_1.length, dim_2.length as int, dim_3.length as int));
        lemma_block_inside(*space, block_1, ax1, dim_1.length as int);
    }
    block_1
}

/// The first way to cut the rest of the space: a block past the item's
/// shortest length across the whole space, then a block past its middle
/// length as deep as its shortest.
pub(crate) fn blocks_a(space: &Space, dim_1: Dimension, dim_2: Dimension, dim_3: Dimension) -> (r: (Space, Space))
    requires
        placed_within(*space, dim_1, dim_2, dim_3),
    ensures
        space_ok(r.0),
        space_inside(r.0, *space),
        space_ok(r.1),
        space_inside(r.1, *space),
        lens(r.0.size) == cut_lens(dim_1, dim_2, dim_3,
            lens(space.size)[axis_pos(dim_1.axis)], lens(space.size)[axis_pos(dim_2.axis)],
            lens(space.size)[axis_pos(dim_3.axis)] - dim_3.length),
        lens(r.1.size) == cut_lens(dim_1, dim_2, dim_3,
            lens(space.size)[axis_pos(dim_1.axis)],
            lens(space.size)[axis_pos(dim_2.axis)] - dim_2.length, dim_3.length as int),
        r == cut_a_spec(*space, dim_1, dim_2, dim_3),
{
    let b_dims_xyz = space.size_xyz();
    let ghost sp = lens(space.size);
    let ghost ax1 = axis_pos(dim_1.axis);
    let ghost ax2 = axis_pos(dim_2.axis);
    let ghost ax3 = axis_pos(dim_3.axis);
    let ghost a1 = dim_2.length as int;
    let ghost a0 = dim_3.length as int;
    proof {
        lemma_xyz_of_canonical(space.size);
    }
    let mut size = b_dims_xyz;
    index_mut(&mut size, dim_3.axis, index(&b_dims_xyz, dim_3.axis) - dim_3.length);
    let block_2a = shifted_block(space.position_xyz, dim_3.axis, dim_3.length, size);
    let mut size = b_dims_xyz;
    index_mut(&mut size, dim_2.axis, index(&b_dims_xyz, dim_2.axis) - dim_2.length);
    index_mut(&mut size, dim_3.axis, dim_3.length);
    let block_3a = shifted_block(space.position_xyz, dim_2.axis, dim_2.length, size);
    proof {
        lemma_at3(ax1, ax2, ax3, sp[ax1], sp[ax2], sp[ax3] - a0);
        assert(lens(block_2a.size) =~= at3(ax1, ax2, ax3, sp[ax1], sp[ax2], sp[ax3] - a0));
        lemma_block_inside(*space, block_2a, ax3, a0);
        lemma_at3(ax1, ax2, ax3, sp[ax1], sp[ax2] - a1, a0);
        assert(lens(block_3a.size) =~= at3(ax1, ax2, ax3, sp[ax1], sp[ax2] - a1, a0));
        lemma_block_inside(*space, block_3a, ax2, a1);
    }
    (block_2a, block_3a)
}

/// The second way to cut the rest of the space: a block past the item's
/// middle length across the whole space, then a block past its shortest
/// length as high as its middle.
pub(crate) fn blocks_b(space: &Space, dim_1: Dimension, dim_2: Dimension, dim_3: Dimension) -> (r: (Space, Space))
    requires
        placed_within(*space, dim_1, dim_2, dim_3),
    ensures
        space_ok(r.0),
        space_inside(r.0, *space),
        space_ok(r.1),
        space_inside(r.1, *space),
        lens(r.0.size) == cut_lens(dim_1, dim_2, dim_3,
            lens(space.size)[axis_pos(dim_1.axis)],
            lens(space.size)[axis_pos(dim_2.axis)] - dim_2.length,
            lens(space.size)[axis_pos(dim_3.axis)]),
        lens(r.1.size) == cut_lens(dim_1, dim_2, dim_3,
            lens(space.size)[axis_pos(dim_1.axis)], dim_2.length as int,
            lens(space.size)[axis_pos(dim_3.axis)] - dim_3.length),
        r == cut_b_spec(*space, dim_1, dim_2, dim_3),
{
    let b_dims_xyz = space.size_xyz();
    let ghost sp = lens(space.size);
    let ghost ax1 = axis_pos(dim_1.axis);
    let ghost ax2 = axis_pos(dim_2.axis);
    let ghost ax3 = axis_pos(dim_3.axis);
    let ghost a1 = dim_2.length as int;
    let ghost a0 = dim_3.length as int;
    proof {
        lemma_xyz_of_canonical(space.size);
    }
    let mut size = b_dims_xyz;
    index_mut(&mut size, dim_2.axis, index(&space.size, dim_2.axis).length - dim_2.length);
    let block_2b = shifted_block(space.position_xyz, dim_2.axis, dim_2.length, size);
    let mut size = b_dims_xyz;
    index_mut(&mut size, dim_3.axis, index(&space.size, dim_3.axis).length - dim_3.length);
    index_mut(&mut size, dim_2.axis, dim_2.length);
    let block_3b = shifted_block(space.position_xyz, dim_3.axis, dim_3.length, size);
    proof {
        lemma_at3(ax1, ax2, ax3, sp[ax1], sp[ax2] - a1, sp[ax3]);
        assert(lens(block_2b.size) =~= at3(ax1, ax2, ax3, sp[ax1], sp[ax2] - a1, sp[ax3]));
        lemma_block_inside(*space, block_2b, ax2, a1);
        lemma_at3(ax1, ax2, ax3, sp[ax1], a1, sp[ax3] - a0);
        assert(lens(block_3b.size) =~= at3(ax1, ax2, ax3, sp[ax1], a1, sp[ax3] - a0));
        lemma_block_inside(*space, block_3b, ax3, a0);
    }
    (block_2b, block_3b)
}

/// The blocks that `space` leaves around an item put at its position with
/// its longest length `dim_1`, its middle length `dim_2` and its shortest
/// `dim_3`: the block beyond the item along its longest length, then the two
/// blocks of the cut whose first block is the smaller (`blocks_b` on a tie).
/// Blocks of volume 0 are dropped.
#[verifier::rlimit(30)]
pub(crate) fn split_space(space: &Space, dim_1: Dimension, dim_2: Dimension, dim_3: Dimension) -> (r: Vec<Space>)
    requires
        placed_within(*space, dim_1, dim_2, dim_3),
    ensures
        forall|i: int|
            0 <= i < r@.len() ==> {
                &&& space_ok(#[trigger] r@[i])
                &&& space_inside(r@[i], *space)
                &&& volume_of(r@[i].size) > 0
            },
        total_volume(r@) + dim_1.length * dim_2.length * dim_3.length == volume_of(space.size),
        r@ == split_spec(*space, dim_1, dim_2, dim_3),
{
    let mut remainder_blocks: Vec<Space> = Vec::new();
    let block_1 = block_beyond(space, dim_1, dim_2, dim_3);
    let (block_2a, block_3a) = blocks_a(space, dim_1, dim_2, dim_3);
    let (block_2b, block_3b) = blocks_b(space, dim_1, dim_2, dim_3);
    let ghost sp = lens(space.size);
    let ghost ax1 = axis_pos(dim_1.axis);
    let ghost ax2 = axis_pos(dim_2.axis);
    let ghost ax3 = axis_pos(dim_3.axis);
    let ghost l = dim_1.length as int;
    let ghost a1 = dim_2.length as int;
    let ghost a0 = dim_3.length as int;
    proof {
        lemma_at3(ax1, ax2, ax3, sp[ax1] - l, a1, a0);
        lemma_at3(ax1, ax2, ax3, sp[ax1], sp[ax2], sp[ax3] - a0);
        lemma_at3(ax1, ax2, ax3, sp[ax1], sp[ax2] - a1, a0);
        lemma_at3(ax1, ax2, ax3, sp[ax1], sp[ax2] - a1, sp[ax3]);
        lemma_at3(ax1, ax2, ax3, sp[ax1], a1, sp[ax3] - a0);
        lemma_split_volumes(sp[ax1], sp[ax2], sp[ax3], l, a1, a0);
        lemma_product_perm(sp, ax1, ax2, ax3);
    }
    push_unless_empty(&mut remainder_blocks, block_1);
    // Keep the cut whose first block is the smaller.
    let keep_a = block_2a.volume() < block_2b.volume();
    let (second, third) = if keep_a {
        (block_2a, block_3a)
    } else {
        (block_2b, block_3b)
    };
    push_unless_empty(&mut remainder_blocks, second);
    push_unless_empty(&mut remainder_blocks, third);
    proof {
        lemma_filter_three(block_1, second, third);
    }
    remainder_blocks
}

/// A side of length `side` holds a length `len` twice over, or matches it exactly.
pub open spec fn holds_twice_or_exactly(side: int, len: int) -> bool {
    side >= 2 * len || side == len
}

/// The side of length `side`, among the sides `sp` of a space, is where an
/// item's longest length `len` goes: the shortest side that holds it twice
/// over or matches it exactly, or, when no side does, the shortest side that
/// holds it.
pub open spec fn longest_side_rule(sp: Seq<int>, side: int, len: int) -> bool {
    &&& side >= len
    &&& forall|k: int|
        0 <= k < 3 && #[trigger] holds_twice_or_exactly(sp[k], len) ==> holds_twice_or_exactly(side, len)
            && side <= sp[k]
    &&& (forall|k: int| 0 <= k < 3 ==> !#[trigger] holds_twice_or_exactly(sp[k], len)) ==> forall|k: int|
        0 <= k < 3 && #[trigger] sp[k] >= len ==> side <= sp[k]
}

/// Of the two sides left once the longest length is placed, the item's
/// middle length `mid` goes on the side of length `side_2` and its shortest
/// on the side of length `side_3`: on the shorter of the two when the middle
/// length fits there, else on the longer.
pub open spec fn middle_side_rule(side_2: int, side_3: int, mid: int) -> bool {
    &&& mid <= side_2 && mid <= side_3 ==> side_2 <= side_3
    &&& !(mid <= side_2 && mid <= side_3) ==> side_2 >= side_3
}

/// The side that `side_1_spec` picks among the sorted sides follows the rule
/// for the item's longest length, read on the space's own sides.
proof fn lemma_longest_side(space: Space, b_dims: [Dimension; 3], len: int, s1: int)
    requires
        canonical(space.size),
        distinct_axes(b_dims),
        lens(b_dims)[0] <= lens(b_dims)[1] <= lens(b_dims)[2],
        b_dims[0].length == lens(space.size)[axis_pos(b_dims[0].axis)],
        b_dims[1].length == lens(space.size)[axis_pos(b_dims[1].axis)],
        b_dims[2].length == lens(space.size)[axis_pos(b_dims[2].axis)],
        lens(b_dims)[2] >= len,
        s1 == side_1_spec(lens(b_dims), len),
    ensures
        0 <= s1 < 3,
        longest_side_rule(lens(space.size), b_dims[s1].length as int, len),
{
    reveal(side_1_spec);
    let sp = lens(space.size);
    let lb = lens(b_dims);
    let side = b_dims[s1].length as int;
    assert forall|k: int| #![trigger sp[k]] 0 <= k < 3 implies exists|i: int| 0 <= i < 3 && #[trigger] lb[i] == sp[k] by {
        if axis_pos(b_dims[0].axis) == k {
            assert(lb[0] == sp[k]);
        } else if axis_pos(b_dims[1].axis) == k {
            assert(lb[1] == sp[k]);
        } else {
            assert(axis_pos(b_dims[2].axis) == k);
            assert(lb[2] == sp[k]);
        }
    }
    assert(side == lb[s1]);
    assert forall|k: int|
        0 <= k < 3 && #[trigger] holds_twice_or_exactly(sp[k], len) implies holds_twice_or_exactly(side, len)
            && side <= sp[k] by {
        let i = choose|i: int| 0 <= i < 3 && #[trigger] lb[i] == sp[k];
        assert(holds_twice_or_exactly(lb[i], len));
    }
    if forall|k: int| 0 <= k < 3 ==> !#[trigger] holds_twice_or_exactly(sp[k], len) {
        assert forall|i: int| 0 <= i < 3 implies !holds_twice_or_exactly(#[trigger] lb[i], len) by {
            if axis_pos(b_dims[i].axis) == 0 {
                assert(!holds_twice_or_exactly(sp[0], len));
            } else if axis_pos(b_dims[i].axis) == 1 {
                assert(!holds_twice_or_exactly(sp[1], len));
            } else {
                assert(!holds_twice_or_exactly(sp[2], len));
            }
        }
        assert(!holds_twice_or_exactly(lb[0], len));
        assert(!holds_twice_or_exactly(lb[1], len));
        assert(!holds_twice_or_exactly(lb[2], len));
        assert forall|k: int| 0 <= k < 3 && #[trigger] sp[k] >= len implies side <= sp[k] by {
            let i = choose|i: int| 0 <= i < 3 && #[trigger] lb[i] == sp[k];
            assert(lb[i] >= len);
        }
    }
}

/// The orientation that `best_orientation` builds from the sorted sizes and
/// the chosen sides is `orientation_spec`: a rotation of the item, along
/// three different axes, inside the space, which leaves room for the cut.
#[verifier::rlimit(30)]
proof fn lemma_oriented(
    space: Space,
    item: Item,
    b_dims: [Dimension; 3],
    item_dims: [Dimension; 3],
    side_1: int,
    side_2: int,
    side_3: int,
    orientation: [Dimension; 3],
)
    requires
        space_ok(space),
        item_ok(item),
        fits_spec(xyz_int(space.size), xyz_int(item.size)),
        b_dims == sorted_dims(space.size),
        item_dims == sorted_dims(item.size),
        lens(b_dims) == seq![
            sorted_triple(lens(space.size)).0,
            sorted_triple(lens(space.size)).1,
            sorted_triple(lens(space.size)).2,
        ],
        lens(item_dims) == seq![
            sorted_triple(lens(item.size)).0,
            sorted_triple(lens(item.size)).1,
            sorted_triple(lens(item.size)).2,
        ],
        distinct_axes(b_dims),
        bounded(item_dims),
        b_dims[0] == space.size[0] || b_dims[0] == space.size[1] || b_dims[0] == space.size[2],
        b_dims[1] == space.size[0] || b_dims[1] == space.size[1] || b_dims[1] == space.size[2],
        b_dims[2] == space.size[0] || b_dims[2] == space.size[1] || b_dims[2] == space.size[2],
        side_1 == side_1_spec(lens(b_dims), item_dims[2].length as int),
        side_2 == sides_2_3_spec(lens(item_dims), lens(b_dims), side_1).0,
        side_3 == sides_2_3_spec(lens(item_dims), lens(b_dims), side_1).1,
        orientation == [
            Dimension { length: item_dims[0].length, axis: b_dims[side_3].axis },
            Dimension { length: item_dims[1].length, axis: b_dims[side_2].axis },
            Dimension { length: item_dims[2].length, axis: b_dims[side_1].axis },
        ],
    ensures
        distinct_axes(orientation),
        bounded(orientation),
        sorted_triple(lens(orientation)) == sorted_triple(lens(item.size)),
        box_inside(space.position_xyz, xyz_int(orientation), space.position_xyz, xyz_int(space.size)),
        orientation == orientation_spec(space.size, item.size),
        placed_within(space, orientation[2], orientation[1], orientation[0]),
        orientation[2].length * orientation[1].length * orientation[0].length == volume_of(item.size),
        xyz_int(orientation) == cut_lens(
            orientation[2],
            orientation[1],
            orientation[0],
            orientation[2].length as int,
            orientation[1].length as int,
            orientation[0].length as int,
        ),
        longest_side_rule(
            lens(space.size),
            lens(space.size)[axis_pos(orientation[2].axis)],
            orientation[2].length as int,
        ),
        middle_side_rule(
            lens(space.size)[axis_pos(orientation[1].axis)],
            lens(space.size)[axis_pos(orientation[0].axis)],
            orientation[1].length as int,
        ),
{
    lemma_sorted_fit(space, item, b_dims, item_dims);
    lemma_sides_hold(lens(item_dims), lens(b_dims));
    lemma_orientation(space, b_dims, item_dims, side_1, side_2, side_3, orientation);
    lemma_longest_side(space, b_dims, item_dims[2].length as int, side_1);
    assert(middle_side_rule(b_dims[side_2].length as int, b_dims[side_3].length as int, item_dims[1].length as int)) by {
        reveal(sides_2_3_spec);
    }
    assert(lens(orientation) =~= lens(item_dims));
    lemma_oriented_inside(space, orientation);
    lemma_oriented_volume(item, item_dims, orientation);
}

/// An orientation along three different axes, each length no longer than the
/// space along its axis, puts the item inside the space.
proof fn lemma_oriented_inside(space: Space, orientation: [Dimension; 3])
    requires
        space_ok(space),
        is_perm3(
            axis_pos(orientation[2].axis),
            axis_pos(orientation[1].axis),
            axis_pos(orientation[0].axis),
        ),
        xyz_int(orientation) == at3(
            axis_pos(orientation[2].axis),
            axis_pos(orientation[1].axis),
            axis_pos(orientation[0].axis),
            orientation[2].length as int,
            orientation[1].length as int,
            orientation[0].length as int,
        ),
        lens(space.size)[axis_pos(orientation[2].axis)] >= orientation[2].length,
        lens(space.size)[axis_pos(orientation[1].axis)] >= orientation[1].length,
        lens(space.size)[axis_pos(orientation[0].axis)] >= orientation[0].length,
    ensures
        box_inside(space.position_xyz, xyz_int(orientation), space.position_xyz, xyz_int(space.size)),
{
    lemma_xyz_of_canonical(space.size);
    lemma_at3(
        axis_pos(orientation[2].axis),
        axis_pos(orientation[1].axis),
        axis_pos(orientation[0].axis),
        orientation[2].length as int,
        orientation[1].length as int,
        orientation[0].length as int,
    );
}

/// An orientation with the item's sorted lengths encloses the item's volume.
proof fn lemma_oriented_volume(item: Item, item_dims: [Dimension; 3], orientation: [Dimension; 3])
    requires
        lens(item_dims) == seq![
            sorted_triple(lens(item.size)).0,
            sorted_triple(lens(item.size)).1,
            sorted_triple(lens(item.size)).2,
        ],
        lens(orientation) == lens(item_dims),
    ensures
        orientation[2].length * orientation[1].length * orientation[0].length == volume_of(item.size),
{
    lemma_volume_sorted(item.size);
    assert(orientation[0].length == lens(item_dims)[0]);
    assert(orientation[1].length == lens(item_dims)[1]);
    assert(orientation[2].length == lens(item_dims)[2]);
    lemma_mul3_any_order(
        item_dims[0].length as int,
        item_dims[1].length as int,
        item_dims[2].length as int,
    );
}

impl BinPacker3D {
    /// Determines the sides for the item's middle and shortest lengths, as
    /// `sides_2_3_spec` states. Both `item_dims` and `box_dims` are sorted
    /// shortest first.
    fn get_side_2_side_3(item_dims: &[Dimension; 3], box_dims: &[Dimension; 3], side_1: usize) -> (r: (
        usize,
        usize,
    ))
        requires
            side_1 < 3,
        ensures
            r.0 == sides_2_3_spec(lens(*item_dims), lens(*box_dims), side_1 as int).0,
            r.1 == sides_2_3_spec(lens(*item_dims), lens(*box_dims), side_1 as int).1,
            r.0 < 3,
            r.1 < 3,
    {
        reveal(sides_2_3_spec);
        let other_1 = (side_1 + 1) % 3;
        let other_2 = (side_1 + 2) % 3;
        let (shorter_box_dim_index, longer_box_dim_index) = if box_dims[other_1].length
            < box_dims[other_2].length {
            (other_1, other_2)
        } else {
            (other_2, other_1)
        };
        if item_dims[1].length <= box_dims[shorter_box_dim_index].length {
            (shorter_box_dim_index, longer_box_dim_index)
        } else {
            (longer_box_dim_index, shorter_box_dim_index)
        }
    }

    /// Orients `item` in `space` and splits what the item leaves of the space
    /// into free spaces.
    ///
    /// The item's longest length goes along the side chosen by `side_1_spec`,
    /// its other lengths along the sides chosen by `sides_2_3_spec`; the item
    /// sits at the space's position. What is left splits into a block beyond the
    /// item along its longest length, and two more blocks cut one of two ways,
    /// the way whose first block is the smaller; blocks of volume 0 are dropped.
    pub(crate) fn best_orientation(space: &Space, item: &Item) -> (r: ([Dimension; 3], Vec<Space>))
        requires
            space_ok(*space),
            item_ok(*item),
            fits_spec(xyz_int(space.size), xyz_int(item.size)),
        ensures
            distinct_axes(r.0),
            bounded(r.0),
            sorted_triple(lens(r.0)) == sorted_triple(lens(item.size)),
            box_inside(space.position_xyz, xyz_int(r.0), space.position_xyz, xyz_int(space.size)),
            forall|i: int|
                0 <= i < r.1@.len() ==> {
                    &&& space_ok(#[trigger] r.1@[i])
                    &&& space_inside(r.1@[i], *space)
                    &&& volume_of(r.1@[i].size) > 0
                },
            total_volume(r.1@) + volume_of(item.size) == volume_of(space.size),
            r.0 == orientation_spec(space.size, item.size),
            r.1@ == split_spec(*space, r.0[2], r.0[1], r.0[0]),
            spaces_disjoint(r.1@),
            apart_from_all(r.1@, space.position_xyz, xyz_int(r.0)),
            longest_side_rule(lens(space.size), lens(space.size)[axis_pos(r.0[2].axis)], r.0[2].length as int),
            r.0[2].length == sorted_triple(lens(item.size)).2,
            middle_side_rule(
                lens(space.size)[axis_pos(r.0[1].axis)],
                lens(space.size)[axis_pos(r.0[0].axis)],
                r.0[1].length as int,
            ),
            r.0[1].length == sorted_triple(lens(item.size)).1,
    {
        let b_dims = sort_dims_ascending(&space.size);
        let item_dims = sort_dims_ascending(&item.size);
        proof {
            lemma_sorted_fit(*space, *item, b_dims, item_dims);
            lemma_sides_hold(lens(item_dims), lens(b_dims));
        }
        let side_1 = choose_side_1(&b_dims, item_dims[2].length);
        let mut dim_1 = item_dims[2];
        dim_1.axis = b_dims[side_1].axis;
        let (side_2, side_3) = Self::get_side_2_side_3(&item_dims, &b_dims, side_1);
        let mut dim_2 = item_dims[1];
        let mut dim_3 = item_dims[0];
        dim_2.axis = b_dims[side_2].axis;
        dim_3.axis = b_dims[side_3].axis;
        let orientation = [dim_3, dim_2, dim_1];
        proof {
            lemma_oriented(*space, *item, b_dims, item_dims, side_1 as int, side_2 as int, side_3 as int, orientation);
        }
        let remainder_blocks = split_space(space, dim_1, dim_2, dim_3);
        proof {
            lemma_split_apart(*space, dim_1, dim_2, dim_3);
        }
        (orientation, remainder_blocks)
    }
}

} // verus!
