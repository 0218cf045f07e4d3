//! Free spaces: their total volume, and joining those that share a complete face.

use vstd::prelude::*;
use crate::geometry::{
    with3, axis_pos, canonical, index, index_mut, lemma_xyz_of_canonical, volume_of, xyz_int,
    AxisSize, Dimension,
};
use crate::packer::{space_inside, space_ok, BinPacker3D, Dimensional, Space};
use crate::sorting::{
    lemma_stable_sorted_rearranged, rearranged, stable_rearrangement, stable_sort_by_key,
    stable_sorted,
};

verus! {

/// The sum of the volumes of the spaces of `s`.
pub open spec fn total_volume(s: Seq<Space>) -> int
    decreases s.len(),
{
    if s.len() == 0 {
        0
    } else {
        total_volume(s.drop_last()) + volume_of(s.last().size)
    }
}

/// Removing a space takes its volume off the total.
pub proof fn lemma_total_volume_remove(s: Seq<Space>, i: int)
    requires
        0 <= i < s.len(),
    ensures
        total_volume(s) == total_volume(s.remove(i)) + volume_of(s[i].size),
    decreases s.len(),
{
    if i == s.len() - 1 {
        assert(s.remove(i) =~= s.drop_last());
    } else {
        lemma_total_volume_remove(s.drop_last(), i);
        assert(s.remove(i).drop_last() =~= s.drop_last().remove(i));
        assert(s.remove(i).last() == s.last());
    }
}

/// Inserting a space adds its volume to the total.
pub proof fn lemma_total_volume_insert(s: Seq<Space>, i: int, x: Space)
    requires
        0 <= i <= s.len(),
    ensures
        total_volume(s.insert(i, x)) == total_volume(s) + volume_of(x.size),
{
    lemma_total_volume_remove(s.insert(i, x), i);
    assert(s.insert(i, x).remove(i) =~= s);
}

/// Two sequences of the same spaces, in any order, have the same total volume.
pub proof fn lemma_total_volume_permutation(s: Seq<Space>, t: Seq<Space>)
    requires
        s.to_multiset() == t.to_multiset(),
    ensures
        total_volume(s) == total_volume(t),
    decreases s.len(),
{
    broadcast use vstd::seq_lib::group_to_multiset_ensures;

    if s.len() == 0 {
        assert(t.len() == 0) by {
            vstd::seq_lib::to_multiset_len(s);
            vstd::seq_lib::to_multiset_len(t);
        }
    } else {
        let x = s.last();
        assert(s =~= s.drop_last().push(x));
        vstd::seq_lib::to_multiset_build(s.drop_last(), x);
        vstd::seq_lib::to_multiset_contains(t, x);
        vstd::seq_lib::to_multiset_contains(s, x);
        assert(s.contains(x)) by {
            assert(s[s.len() - 1] == x);
        }
        let i = choose|i: int| 0 <= i < t.len() && t[i] == x;
        vstd::seq_lib::to_multiset_remove(t, i);
        assert(s.drop_last().to_multiset() =~= t.remove(i).to_multiset());
        lemma_total_volume_permutation(s.drop_last(), t.remove(i));
        lemma_total_volume_remove(t, i);
    }
}

/// Whatever `t` holds, `s` holds too, when both hold the same elements.
pub proof fn lemma_permutation_contains<T>(s: Seq<T>, t: Seq<T>, x: T)
    requires
        s.to_multiset() == t.to_multiset(),
        t.contains(x),
    ensures
        s.contains(x),
{
    vstd::seq_lib::to_multiset_contains(t, x);
    vstd::seq_lib::to_multiset_contains(s, x);
}

/// Where space `s` starts along axis `k`.
pub open spec fn lo(s: Space, k: int) -> int {
    s.position_xyz@[k] as int
}

/// Where space `s` ends along axis `k`, reading its lengths by position.
pub open spec fn hi(s: Space, k: int) -> int {
    s.position_xyz@[k] + s.size@[k].length
}

/// The two axes other than `ax`, in axis order.
pub open spec fn other_axes_spec(ax: int) -> (int, int) {
    if ax == 0 {
        (1, 2)
    } else if ax == 1 {
        (0, 2)
    } else {
        (0, 1)
    }
}

/// Spaces `a` and `b` share a complete face across axis `ax`: one ends
/// where the other starts along that axis, and across it they start at the
/// same place and have the same lengths.
pub open spec fn mergeable(a: Space, b: Space, ax: int) -> bool {
    let (o1, o2) = other_axes_spec(ax);
    &&& hi(a, ax) == lo(b, ax) || hi(b, ax) == lo(a, ax)
    &&& lo(a, o1) == lo(b, o1)
    &&& lo(a, o2) == lo(b, o2)
    &&& a.size@[o1].length == b.size@[o1].length
    &&& a.size@[o2].length == b.size@[o2].length
}

/// The axis at position `i` of a coordinate triple.
pub open spec fn axis_at(i: int) -> AxisSize {
    if i == 0 {
        AxisSize::Width
    } else if i == 1 {
        AxisSize::Height
    } else {
        AxisSize::Depth
    }
}

/// Space `s` ends, along each axis, no further than `ext` along it.
pub open spec fn within(s: Space, ext: Seq<int>) -> bool {
    &&& hi(s, 0) <= ext[0]
    &&& hi(s, 1) <= ext[1]
    &&& hi(s, 2) <= ext[2]
}

/// Stretching one length of a box by `y` adds the volume of the box that
/// has `y` in that place.
pub(crate) proof fn lemma_stretch_volume(x: int, y: int, p: int, q: int)
    ensures
        (x + y) * p * q == x * p * q + y * p * q,
        p * (x + y) * q == p * x * q + p * y * q,
        p * q * (x + y) == p * q * x + p * q * y,
{
    assert((x + y) * p * q == x * p * q + y * p * q) by (nonlinear_arith);
    assert(p * (x + y) * q == p * x * q + p * y * q) by (nonlinear_arith);
    assert(p * q * (x + y) == p * q * x + p * q * y) by (nonlinear_arith);
}

/// The two axes other than `axis`, in axis order.
pub(crate) fn other_axes(axis: AxisSize) -> (r: [AxisSize; 2])
    ensures
        axis_pos(r[0]) == other_axes_spec(axis_pos(axis)).0,
        axis_pos(r[1]) == other_axes_spec(axis_pos(axis)).1,
{
    match axis {
        AxisSize::Width => [AxisSize::Height, AxisSize::Depth],
        AxisSize::Height => [AxisSize::Width, AxisSize::Depth],
        AxisSize::Depth => [AxisSize::Width, AxisSize::Height],
    }
}

/// Whether `a` and `b` share a complete face across `axis`, as `mergeable` states.
pub(crate) fn can_merge(a: &Space, b: &Space, axis: AxisSize) -> (r: bool)
    requires
        space_ok(*a),
        space_ok(*b),
    ensures
        r == mergeable(*a, *b, axis_pos(axis)),
{
    let a_min = index(&a.position_xyz, axis);
    let a_max = a_min + index(&a.size, axis).length;
    let b_min = index(&b.position_xyz, axis);
    let b_max = b_min + index(&b.size, axis).length;
    let others = other_axes(axis);
    let face_dim_a1 = index(&a.size, others[0]).length;
    let face_dim_a2 = index(&a.size, others[1]).length;
    let face_dim_b1 = index(&b.size, others[0]).length;
    let face_dim_b2 = index(&b.size, others[1]).length;
    // The faces must also line up: same start on both other axes.
    let aligned = index(&a.position_xyz, others[0]) == index(&b.position_xyz, others[0])
        && index(&a.position_xyz, others[1]) == index(&b.position_xyz, others[1]);
    (a_max == b_min || b_max == a_min) && aligned && face_dim_a1 == face_dim_b1 && face_dim_a2
        == face_dim_b2
}

/// The space that joins `a` and `b` along axis `ax`: `a`, starting where the
/// first of the two starts, with the lengths of both along that axis.
pub open spec fn merge_spec(a: Space, b: Space, ax: int) -> Space {
    Space {
        position_xyz: with3(
            a.position_xyz,
            ax,
            if lo(a, ax) <= lo(b, ax) {
                a.position_xyz[ax]
            } else {
                b.position_xyz[ax]
            },
        ),
        size: with3(
            a.size,
            ax,
            Dimension { length: (a.size[ax].length + b.size[ax].length) as u64, axis: axis_at(ax) },
        ),
    }
}

/// Joins `a` and `b`, which share a complete face across `axis`, into one space.
pub(crate) fn merge(a: &Space, b: &Space, axis: AxisSize) -> (r: Space)
    requires
        space_ok(*a),
        space_ok(*b),
        mergeable(*a, *b, axis_pos(axis)),
    ensures
        r.position_xyz@ == a.position_xyz@.update(
            axis_pos(axis),
            if lo(*a, axis_pos(axis)) <= lo(*b, axis_pos(axis)) {
                a.position_xyz@[axis_pos(axis)]
            } else {
                b.position_xyz@[axis_pos(axis)]
            },
        ),
        r.size@ == a.size@.update(
            axis_pos(axis),
            Dimension {
                length: (a.size@[axis_pos(axis)].length + b.size@[axis_pos(axis)].length) as u64,
                axis,
            },
        ),
        space_ok(r),
        volume_of(r.size) == volume_of(a.size) + volume_of(b.size),
        forall|ext: Seq<int>| within(*a, ext) && within(*b, ext) ==> #[trigger] within(r, ext),
        r == merge_spec(*a, *b, axis_pos(axis)),
{
    let mut position_xyz = a.position_xyz;
    let pa = index(&a.position_xyz, axis);
    let pb = index(&b.position_xyz, axis);
    index_mut(&mut position_xyz, axis, if pa <= pb { pa } else { pb });
    let mut size = a.size;
    let length = index(&a.size, axis).length + index(&b.size, axis).length;
    index_mut(&mut size, axis, Dimension { length, axis });
    let r = Space { position_xyz, size };
    proof {
        let ax = axis_pos(axis);
        assert(r.position_xyz =~= merge_spec(*a, *b, ax).position_xyz);
        assert(r.size =~= merge_spec(*a, *b, ax).size);
        let x = a.size[ax].length as int;
        let y = b.size[ax].length as int;
        if ax == 0 {
            lemma_stretch_volume(x, y, a.size[1].length as int, a.size[2].length as int);
        } else if ax == 1 {
            lemma_stretch_volume(x, y, a.size[0].length as int, a.size[2].length as int);
        } else {
            lemma_stretch_volume(x, y, a.size[0].length as int, a.size[1].length as int);
        }
    }
    r
}

/// Along one axis, the intervals from `p` of length `e` and from `q` of
/// length `f` share no interior point.
pub open spec fn apart_on(p: int, e: int, q: int, f: int) -> bool {
    p + e <= q || q + f <= p || e <= 0 || f <= 0
}

/// The box at `p` with lengths `e` and the box at `q` with lengths `f`
/// (lengths by axis) have disjoint interiors: they are apart along some axis.
pub open spec fn boxes_apart(p: [u64; 3], e: Seq<int>, q: [u64; 3], f: Seq<int>) -> bool {
    ||| apart_on(p[0] as int, e[0], q[0] as int, f[0])
    ||| apart_on(p[1] as int, e[1], q[1] as int, f[1])
    ||| apart_on(p[2] as int, e[2], q[2] as int, f[2])
}

/// Space `x` and the box at `p` with lengths `e` have disjoint interiors.
pub open spec fn space_apart(x: Space, p: [u64; 3], e: Seq<int>) -> bool {
    boxes_apart(x.position_xyz, xyz_int(x.size), p, e)
}

/// Every space of `s` and the box at `p` with lengths `e` have disjoint interiors.
pub open spec fn apart_from_all(s: Seq<Space>, p: [u64; 3], e: Seq<int>) -> bool {
    forall|k: int| 0 <= k < s.len() ==> #[trigger] space_apart(s[k], p, e)
}

/// No two spaces of `s` overlap: their interiors are disjoint.
pub open spec fn spaces_disjoint(s: Seq<Space>) -> bool {
    forall|i: int, j: int|
        0 <= i < s.len() && 0 <= j < s.len() && i != j ==> #[trigger] space_apart(
            s[i],
            s[j].position_xyz,
            xyz_int(s[j].size),
        )
}

/// Joining two spaces that share a complete face covers exactly what the two
/// covered: whatever is apart from both is apart from the join.
pub(crate) proof fn lemma_merge_apart(a: Space, b: Space, ax: int, p: [u64; 3], e: Seq<int>)
    requires
        space_ok(a),
        space_ok(b),
        0 <= ax < 3,
        mergeable(a, b, ax),
        space_apart(a, p, e),
        space_apart(b, p, e),
    ensures
        space_apart(merge_spec(a, b, ax), p, e),
{
    let m = merge_spec(a, b, ax);
    lemma_xyz_of_canonical(a.size);
    lemma_xyz_of_canonical(b.size);
    assert(canonical(m.size));
    lemma_xyz_of_canonical(m.size);
}

/// Triple `(i2, j2, a2)` comes strictly before `(i, j, a)` in lexicographic order.
pub open spec fn triple_before(i2: int, j2: int, a2: int, i: int, j: int, a: int) -> bool {
    i2 < i || (i2 == i && (j2 < j || (j2 == j && a2 < a)))
}

/// No two spaces of `s` share a complete face.
pub open spec fn none_mergeable(s: Seq<Space>) -> bool {
    forall|i: int, j: int, a: int|
        0 <= i < s.len() && 0 <= j < s.len() && i != j && 0 <= a < 3 ==> !#[trigger] mergeable(
            s[i],
            s[j],
            a,
        )
}

/// Every space of `s` is one the packer can hold.
pub open spec fn all_ok(s: Seq<Space>) -> bool {
    forall|k: int| 0 <= k < s.len() ==> space_ok(#[trigger] s[k])
}

/// Spaces `i` and `j` of `s` (`i` before `j`) share a complete face across
/// axis `a`, and no pair before them (by the position of the first, then of
/// the second, then by axis) does.
pub open spec fn is_first_merge(s: Seq<Space>, i: int, j: int, a: int) -> bool {
    &&& 0 <= i < j < s.len()
    &&& 0 <= a < 3
    &&& mergeable(s[i], s[j], a)
    &&& forall|i2: int, j2: int, a2: int|
        0 <= i2 < j2 < s.len() && 0 <= a2 < 3 && triple_before(i2, j2, a2, i, j, a)
            ==> !#[trigger] mergeable(s[i2], s[j2], a2)
}

/// The first pair of spaces of `s` that share a complete face, with the
/// axis, if there is one.
pub open spec fn first_merge(s: Seq<Space>) -> Option<(int, int, int)> {
    if exists|i: int, j: int, a: int| is_first_merge(s, i, j, a) {
        Some(choose|i: int, j: int, a: int| is_first_merge(s, i, j, a))
    } else {
        None
    }
}

/// There is only one first pair.
proof fn lemma_first_merge_unique(s: Seq<Space>, i: int, j: int, a: int)
    requires
        is_first_merge(s, i, j, a),
    ensures
        first_merge(s) == Some((i, j, a)),
{
    let (i2, j2, a2) = choose|i: int, j: int, a: int| is_first_merge(s, i, j, a);
    assert(is_first_merge(s, i2, j2, a2));
    if triple_before(i2, j2, a2, i, j, a) {
        assert(!mergeable(s[i2], s[j2], a2));
    } else if triple_before(i, j, a, i2, j2, a2) {
        assert(!mergeable(s[i], s[j], a));
    }
}

/// Spaces `s` with the spaces `i` and `j` replaced by their join across axis
/// `a`, put first.
pub open spec fn after_merge(s: Seq<Space>, i: int, j: int, a: int) -> Seq<Space> {
    s.remove(j).remove(i).insert(0, merge_spec(s[i], s[j], a))
}

/// Point `pt` (its coordinates by axis) lies in space `x`, borders included.
pub open spec fn in_space(x: Space, pt: Seq<int>) -> bool {
    &&& x.position_xyz[0] <= pt[0] <= x.position_xyz[0] + xyz_int(x.size)[0]
    &&& x.position_xyz[1] <= pt[1] <= x.position_xyz[1] + xyz_int(x.size)[1]
    &&& x.position_xyz[2] <= pt[2] <= x.position_xyz[2] + xyz_int(x.size)[2]
}

/// Point `pt` lies in some space of `s`: the region that `s` covers.
pub open spec fn covered(s: Seq<Space>, pt: Seq<int>) -> bool {
    exists|k: int| 0 <= k < s.len() && #[trigger] in_space(s[k], pt)
}

/// The join of two spaces that share a complete face covers what the two
/// cover, and nothing more.
proof fn lemma_merge_covers(a: Space, b: Space, ax: int, pt: Seq<int>)
    requires
        space_ok(a),
        space_ok(b),
        0 <= ax < 3,
        mergeable(a, b, ax),
    ensures
        in_space(merge_spec(a, b, ax), pt) == (in_space(a, pt) || in_space(b, pt)),
{
    let m = merge_spec(a, b, ax);
    lemma_xyz_of_canonical(a.size);
    lemma_xyz_of_canonical(b.size);
    assert(canonical(m.size));
    lemma_xyz_of_canonical(m.size);
}

/// Two sequences of the same spaces, in any order, cover the same region.
pub(crate) proof fn lemma_covered_permutation(s: Seq<Space>, t: Seq<Space>)
    requires
        s.to_multiset() == t.to_multiset(),
    ensures
        forall|pt: Seq<int>| #[trigger] covered(s, pt) == covered(t, pt),
{
    assert forall|pt: Seq<int>| #[trigger] covered(s, pt) == covered(t, pt) by {
        if covered(s, pt) {
            let k = choose|k: int| 0 <= k < s.len() && #[trigger] in_space(s[k], pt);
            assert(s.contains(s[k]));
            lemma_permutation_contains(t, s, s[k]);
            let m = choose|m: int| 0 <= m < t.len() && t[m] == s[k];
            assert(in_space(t[m], pt));
        }
        if covered(t, pt) {
            let k = choose|k: int| 0 <= k < t.len() && #[trigger] in_space(t[k], pt);
            assert(t.contains(t[k]));
            lemma_permutation_contains(s, t, t[k]);
            let m = choose|m: int| 0 <= m < s.len() && s[m] == t[k];
            assert(in_space(s[m], pt));
        }
    }
}

/// Where the space at position `m` (above 0) of `after_merge(s, i, j, _)`
/// was in `s`.
pub open spec fn merge_source(i: int, j: int, m: int) -> int {
    if m - 1 < i {
        m - 1
    } else if m < j {
        m
    } else {
        m + 1
    }
}

/// After a join, the joined space comes first and the others follow in
/// their order.
proof fn lemma_after_merge_source(s: Seq<Space>, i: int, j: int, a: int)
    requires
        0 <= i < j < s.len(),
    ensures
        after_merge(s, i, j, a).len() == s.len() - 1,
        after_merge(s, i, j, a)[0] == merge_spec(s[i], s[j], a),
        forall|m: int|
            1 <= m < s.len() - 1 ==> {
                &&& 0 <= merge_source(i, j, m) < s.len()
                &&& merge_source(i, j, m) != i
                &&& merge_source(i, j, m) != j
                &&& #[trigger] after_merge(s, i, j, a)[m] == s[merge_source(i, j, m)]
            },
{
    let s1 = s.remove(j);
    let s2 = s1.remove(i);
    assert forall|m: int| 1 <= m < s.len() - 1 implies #[trigger] after_merge(s, i, j, a)[m] == s[merge_source(i, j, m)] by {
        assert(after_merge(s, i, j, a)[m] == s2[m - 1]);
        if m - 1 < i {
            assert(s2[m - 1] == s1[m - 1]);
        } else {
            assert(s2[m - 1] == s1[m]);
        }
    }
}

/// Joining two spaces that share a complete face keeps the spaces from
/// overlapping, and keeps them apart from whatever they were all apart from.
pub(crate) proof fn lemma_after_merge_apart(s: Seq<Space>, i: int, j: int, a: int)
    requires
        all_ok(s),
        0 <= i < j < s.len(),
        0 <= a < 3,
        mergeable(s[i], s[j], a),
    ensures
        spaces_disjoint(s) ==> spaces_disjoint(after_merge(s, i, j, a)),
        forall|p: [u64; 3], e: Seq<int>|
            apart_from_all(s, p, e) ==> #[trigger] apart_from_all(after_merge(s, i, j, a), p, e),
{
    lemma_after_merge_source(s, i, j, a);
    let t = after_merge(s, i, j, a);
    assert(space_ok(s[i]) && space_ok(s[j]));
    if spaces_disjoint(s) {
        assert forall|x: int, y: int|
            0 <= x < t.len() && 0 <= y < t.len() && x != y implies #[trigger] space_apart(
            t[x],
            t[y].position_xyz,
            xyz_int(t[y].size),
        ) by {
            if x == 0 {
                let k = merge_source(i, j, y);
                assert(t[y] == s[k]);
                assert(space_apart(s[i], s[k].position_xyz, xyz_int(s[k].size)));
                assert(space_apart(s[j], s[k].position_xyz, xyz_int(s[k].size)));
                lemma_merge_apart(s[i], s[j], a, s[k].position_xyz, xyz_int(s[k].size));
            } else if y == 0 {
                let k = merge_source(i, j, x);
                assert(t[x] == s[k]);
                assert(space_apart(s[k], s[i].position_xyz, xyz_int(s[i].size)));
                assert(space_apart(s[k], s[j].position_xyz, xyz_int(s[j].size)));
                lemma_merge_apart(s[i], s[j], a, s[k].position_xyz, xyz_int(s[k].size));
            } else {
                let kx = merge_source(i, j, x);
                let ky = merge_source(i, j, y);
                assert(t[x] == s[kx]);
                assert(t[y] == s[ky]);
                assert(space_apart(s[kx], s[ky].position_xyz, xyz_int(s[ky].size)));
            }
        }
    }
    assert forall|p: [u64; 3], e: Seq<int>| apart_from_all(s, p, e) implies #[trigger] apart_from_all(t, p, e) by {
        assert forall|m: int| 0 <= m < t.len() implies #[trigger] space_apart(t[m], p, e) by {
            if m == 0 {
                assert(space_apart(s[i], p, e));
                assert(space_apart(s[j], p, e));
                lemma_merge_apart(s[i], s[j], a, p, e);
            } else {
                let k = merge_source(i, j, m);
                assert(t[m] == s[k]);
                assert(space_apart(s[k], p, e));
            }
        }
    }
}

/// Joining two spaces that share a complete face keeps the region that the
/// spaces cover.
pub(crate) proof fn lemma_after_merge_covers(s: Seq<Space>, i: int, j: int, a: int)
    requires
        all_ok(s),
        0 <= i < j < s.len(),
        0 <= a < 3,
        mergeable(s[i], s[j], a),
    ensures
        forall|pt: Seq<int>| #[trigger] covered(after_merge(s, i, j, a), pt) == covered(s, pt),
{
    lemma_after_merge_source(s, i, j, a);
    let t = after_merge(s, i, j, a);
    assert(space_ok(s[i]) && space_ok(s[j]));
    assert forall|pt: Seq<int>| #[trigger] covered(t, pt) == covered(s, pt) by {
        lemma_merge_covers(s[i], s[j], a, pt);
        if covered(t, pt) {
            let m = choose|m: int| 0 <= m < t.len() && #[trigger] in_space(t[m], pt);
            if m == 0 {
                if in_space(s[i], pt) {
                    assert(in_space(s[i], pt));
                } else {
                    assert(in_space(s[j], pt));
                }
            } else {
                assert(in_space(s[merge_source(i, j, m)], pt));
            }
        }
        if covered(s, pt) {
            let k = choose|k: int| 0 <= k < s.len() && #[trigger] in_space(s[k], pt);
            if k == i || k == j {
                assert(in_space(t[0], pt));
            } else {
                let m = if k < i {
                    k + 1
                } else if k < j {
                    k
                } else {
                    k - 1
                };
                assert(merge_source(i, j, m) == k);
                assert(t[m] == s[k]);
                assert(in_space(t[m], pt));
            }
        }
    }
}

/// Joins, again and again, the first two spaces of `s` that share a
/// complete face, until no two do.
pub open spec fn merge_all(s: Seq<Space>) -> Seq<Space>
    decreases s.len(),
{
    match first_merge(s) {
        Some((i, j, a)) => if 0 <= i < j < s.len() {
            merge_all(after_merge(s, i, j, a))
        } else {
            s
        },
        None => s,
    }
}

/// Finds the first pair of spaces (by the position of the first, then of the
/// second, then by axis) that share a complete face.
pub(crate) fn find_merge(spaces: &Vec<Space>) -> (r: Option<(usize, usize, AxisSize)>)
    requires
        all_ok(spaces@),
    ensures
        r is None ==> none_mergeable(spaces@),
        r is None ==> first_merge(spaces@) is None,
        r matches Some((i, j, axis)) ==> first_merge(spaces@) == Some((i as int, j as int, axis_pos(axis))),
        r matches Some((i, j, axis)) ==> {
            &&& i < j < spaces@.len()
            &&& mergeable(spaces@[i as int], spaces@[j as int], axis_pos(axis))
            &&& forall|i2: int, j2: int, a2: int|
                0 <= i2 < j2 < spaces@.len() && 0 <= a2 < 3 && triple_before(
                    i2,
                    j2,
                    a2,
                    i as int,
                    j as int,
                    axis_pos(axis),
                ) ==> !#[trigger] mergeable(spaces@[i2], spaces@[j2], a2)
        },
{
    let n = spaces.len();
    let mut i: usize = 0;
    while i < n
        invariant
            n == spaces@.len(),
            all_ok(spaces@),
            forall|i2: int, j2: int, a2: int|
                0 <= i2 < i && i2 < j2 < n && 0 <= a2 < 3 ==> !#[trigger] mergeable(
                    spaces@[i2],
                    spaces@[j2],
                    a2,
                ),
        decreases n - i,
    {
        let mut j: usize = i + 1;
        while j < n
            invariant
                n == spaces@.len(),
                i < n,
                i < j,
                all_ok(spaces@),
                forall|i2: int, j2: int, a2: int|
                    0 <= i2 < i && i2 < j2 < n && 0 <= a2 < 3 ==> !#[trigger] mergeable(
                        spaces@[i2],
                        spaces@[j2],
                        a2,
                    ),
                forall|j2: int, a2: int|
                    i < j2 < j && 0 <= a2 < 3 ==> !#[trigger] mergeable(spaces@[i as int], spaces@[j2], a2),
            decreases n - j,
        {
            if can_merge(&spaces[i], &spaces[j], AxisSize::Width) {
                proof {
                    lemma_first_merge_unique(spaces@, i as int, j as int, 0);
                }
                return Some((i, j, AxisSize::Width));
            }
            if can_merge(&spaces[i], &spaces[j], AxisSize::Height) {
                proof {
                    lemma_first_merge_unique(spaces@, i as int, j as int, 1);
                }
                return Some((i, j, AxisSize::Height));
            }
            if can_merge(&spaces[i], &spaces[j], AxisSize::Depth) {
                proof {
                    lemma_first_merge_unique(spaces@, i as int, j as int, 2);
                }
                return Some((i, j, AxisSize::Depth));
            }
            j += 1;
        }
        i += 1;
    }
    proof {
        assert forall|a: int, b: int, c: int|
            0 <= a < spaces@.len() && 0 <= b < spaces@.len() && a != b && 0 <= c < 3 implies !#[trigger] mergeable(
            spaces@[a],
            spaces@[b],
            c,
        ) by {
            if b < a {
                assert(!mergeable(spaces@[b], spaces@[a], c));
            }
        }
    }
    None
}

/// The volume of each space of `spaces`.
pub(crate) fn volume_keys(spaces: &Vec<Space>) -> (k: Vec<u128>)
    requires
        all_ok(spaces@),
    ensures
        k@.len() == spaces@.len(),
        forall|i: int| 0 <= i < k@.len() ==> k@[i] == volume_of(#[trigger] spaces@[i].size),
{
    let mut k: Vec<u128> = Vec::new();
    let mut i: usize = 0;
    while i < spaces.len()
        invariant
            i <= spaces@.len(),
            all_ok(spaces@),
            k@.len() == i,
            forall|m: int| 0 <= m < i ==> k@[m] == volume_of(#[trigger] spaces@[m].size),
        decreases spaces@.len() - i,
    {
        k.push(spaces[i].volume());
        i += 1;
    }
    k
}

/// The sum of the coordinates of the position of each space of `spaces`:
/// how far it lies from the origin.
pub(crate) fn distance_keys(spaces: &Vec<Space>) -> (k: Vec<u128>)
    requires
        all_ok(spaces@),
    ensures
        k@.len() == spaces@.len(),
        forall|i: int|
            0 <= i < k@.len() ==> k@[i] == spaces@[i].position_xyz[0]
                + spaces@[i].position_xyz[1] + #[trigger] spaces@[i].position_xyz[2],
{
    let mut k: Vec<u128> = Vec::new();
    let mut i: usize = 0;
    while i < spaces.len()
        invariant
            i <= spaces@.len(),
            all_ok(spaces@),
            k@.len() == i,
            forall|m: int|
                0 <= m < i ==> k@[m] == spaces@[m].position_xyz[0] + spaces@[m].position_xyz[1]
                    + #[trigger] spaces@[m].position_xyz[2],
        decreases spaces@.len() - i,
    {
        let p = spaces[i].position_xyz;
        k.push(p[0] as u128 + p[1] as u128 + p[2] as u128);
        i += 1;
    }
    k
}

/// The spaces `s` sorted by volume, smallest first, spaces of equal volume
/// in their order.
pub open spec fn by_volume_sorted(s: Seq<Space>) -> Seq<Space> {
    stable_sorted(s, volume_keys_spec(s), false).0
}

/// The distance of each space of `s` from the origin: the sum of the
/// coordinates of its position.
pub open spec fn distance_keys_spec(s: Seq<Space>) -> Seq<u128> {
    s.map_values(|x: Space| (x.position_xyz[0] + x.position_xyz[1] + x.position_xyz[2]) as u128)
}

/// What `defrag` makes of the free spaces `s`: taken in order of their
/// distance from the origin, joined while two share a complete face, then
/// sorted by volume.
pub open spec fn defrag_spec(s: Seq<Space>) -> Seq<Space> {
    by_volume_sorted(merge_all(stable_sorted(s, distance_keys_spec(s), false).0))
}

/// Sorts spaces by volume, smallest first; spaces of equal volume keep their
/// order.
pub(crate) fn sort_by_volume(spaces: Vec<Space>) -> (r: Vec<Space>)
    requires
        all_ok(spaces@),
    ensures
        r@.to_multiset() == spaces@.to_multiset(),
        r@.len() == spaces@.len(),
        forall|i: int, j: int|
            0 <= i < j < r@.len() ==> volume_of(#[trigger] r@[i].size) <= volume_of(
                #[trigger] r@[j].size,
            ),
        exists|idx: Seq<int>| stable_rearrangement(spaces@, volume_keys_spec(spaces@), r@, volume_keys_spec(r@), idx),
        r@ == by_volume_sorted(spaces@),
{
    let keys = volume_keys(&spaces);
    let ghost s0 = spaces@;
    let (r, rk) = stable_sort_by_key(spaces, keys, false);
    proof {
        assert(keys@ =~= volume_keys_spec(s0));
        let idx = choose|idx: Seq<int>| stable_rearrangement(s0, keys@, r@, rk@, idx);
        assert forall|m: int| 0 <= m < rk@.len() implies rk@[m] == volume_of(r@[m].size) by {
            assert(0 <= idx[m] < s0.len());
        }
        assert(rk@ =~= volume_keys_spec(r@));
        assert(stable_rearrangement(s0, volume_keys_spec(s0), r@, volume_keys_spec(r@), idx));
        assert forall|i: int, j: int| 0 <= i < j < r@.len() implies volume_of(#[trigger] r@[i].size) <= volume_of(
            #[trigger] r@[j].size) by {
            assert(rk@[i] == volume_of(r@[i].size));
            assert(rk@[j] == volume_of(r@[j].size));
            assert(!crate::sorting::key_before(rk@[j], rk@[i], false));
        }
    }
    r
}

/// The volume of each space of `s`.
pub open spec fn volume_keys_spec(s: Seq<Space>) -> Seq<u128> {
    s.map_values(|x: Space| volume_of(x.size) as u128)
}

/// A reordering of a reordering is a reordering.
proof fn lemma_rearranged_compose(s: Seq<Space>, t: Seq<Space>, u: Seq<Space>, i1: Seq<int>, i2: Seq<int>)
    requires
        rearranged(s, t, i1),
        rearranged(t, u, i2),
    ensures
        exists|idx: Seq<int>| rearranged(s, u, idx),
{
    let idx = Seq::new(u.len(), |m: int| i1[i2[m]]);
    assert forall|m: int, n: int| 0 <= m < n < u.len() implies #[trigger] idx[m] != #[trigger] idx[n] by {
        let a = i2[m];
        let b = i2[n];
        assert(a != b);
        if a < b {
            assert(i1[a] != i1[b]);
        } else {
            assert(i1[b] != i1[a]);
        }
    }
    assert forall|m: int| 0 <= m < u.len() implies 0 <= #[trigger] idx[m] < s.len() && u[m] == s[idx[m]] by {
        assert(0 <= i2[m] < t.len());
    }
    assert(rearranged(s, u, idx));
}

/// A reordering keeps any two spaces from sharing a complete face.
proof fn lemma_rearranged_none_mergeable(s: Seq<Space>, r: Seq<Space>, idx: Seq<int>)
    requires
        rearranged(s, r, idx),
        none_mergeable(s),
    ensures
        none_mergeable(r),
{
    assert forall|i: int, j: int, a: int|
        0 <= i < r.len() && 0 <= j < r.len() && i != j && 0 <= a < 3 implies !#[trigger] mergeable(r[i], r[j], a) by {
        if i < j {
            assert(idx[i] != idx[j]);
        } else {
            assert(idx[j] != idx[i]);
        }
        assert(!mergeable(s[idx[i]], s[idx[j]], a));
    }
}

/// When two spaces share a complete face, there is a first such pair.
proof fn lemma_first_merge_exists(s: Seq<Space>, i: int, j: int, a: int)
    requires
        0 <= i < j < s.len(),
        0 <= a < 3,
        mergeable(s[i], s[j], a),
    ensures
        first_merge(s) is Some,
    decreases i * 3 * s.len() + j * 3 + a,
{
    if !is_first_merge(s, i, j, a) {
        let (i2, j2, a2) = choose|i2: int, j2: int, a2: int|
            0 <= i2 < j2 < s.len() && 0 <= a2 < 3 && triple_before(i2, j2, a2, i, j, a) && mergeable(
                s[i2],
                s[j2],
                a2,
            );
        let n = s.len() as int;
        assert(i2 * 3 * n + j2 * 3 + a2 < i * 3 * n + j * 3 + a) by (nonlinear_arith)
            requires
                0 <= i2 < j2 < n,
                0 <= a2 < 3,
                0 <= i < j < n,
                0 <= a < 3,
                triple_before(i2, j2, a2, i, j, a),
        {
            if i2 < i {
                assert(i2 * 3 * n + 3 * n <= i * 3 * n);
            }
        }
        assert(0 <= i2 * 3 * n + j2 * 3 + a2) by (nonlinear_arith)
            requires
                0 <= i2 < j2 < n,
                0 <= a2 < 3,
        ;
        lemma_first_merge_exists(s, i2, j2, a2);
    } else {
        assert(exists|i: int, j: int, a: int| is_first_merge(s, i, j, a));
    }
}

/// Where there is no first pair sharing a complete face, there is no pair.
proof fn lemma_no_first_merge(s: Seq<Space>)
    requires
        first_merge(s) is None,
    ensures
        none_mergeable(s),
{
    assert forall|i: int, j: int, a: int|
        0 <= i < s.len() && 0 <= j < s.len() && i != j && 0 <= a < 3 implies !#[trigger] mergeable(s[i], s[j], a) by {
        if mergeable(s[i], s[j], a) {
            if i < j {
                lemma_first_merge_exists(s, i, j, a);
            } else {
                assert(mergeable(s[j], s[i], a));
                lemma_first_merge_exists(s, j, i, a);
            }
        }
    }
}

/// Joining until no two spaces share a complete face leaves no such pair.
proof fn lemma_merge_all_done(s: Seq<Space>)
    ensures
        first_merge(merge_all(s)) is None,
    decreases s.len(),
{
    if first_merge(s) is Some {
        let (i, j, a) = choose|i: int, j: int, a: int| is_first_merge(s, i, j, a);
        assert(is_first_merge(s, i, j, a));
        assert(first_merge(s) == Some((i, j, a)));
        lemma_merge_all_done(after_merge(s, i, j, a));
    }
}

/// Spaces of which no two share a complete face are left as they are.
proof fn lemma_merge_all_none(s: Seq<Space>)
    requires
        none_mergeable(s),
    ensures
        merge_all(s) == s,
{
    if first_merge(s) is Some {
        let (i, j, a) = choose|i: int, j: int, a: int| is_first_merge(s, i, j, a);
        assert(is_first_merge(s, i, j, a));
        assert(mergeable(s[i], s[j], a));
    }
}

/// Defragmenting leaves no two spaces that share a complete face, so
/// defragmenting again only reorders the spaces.
pub proof fn lemma_defrag_again(s: Seq<Space>)
    ensures
        none_mergeable(defrag_spec(s)),
        exists|idx: Seq<int>| rearranged(defrag_spec(s), defrag_spec(defrag_spec(s)), idx),
{
    let u0 = stable_sorted(s, distance_keys_spec(s), false).0;
    let m = merge_all(u0);
    lemma_merge_all_done(u0);
    lemma_no_first_merge(m);
    let d = defrag_spec(s);
    lemma_stable_sorted_rearranged(m, volume_keys_spec(m), false);
    let i0 = choose|idx: Seq<int>| rearranged(m, d, idx);
    lemma_rearranged_none_mergeable(m, d, i0);
    let u = stable_sorted(d, distance_keys_spec(d), false).0;
    lemma_stable_sorted_rearranged(d, distance_keys_spec(d), false);
    let i1 = choose|idx: Seq<int>| rearranged(d, u, idx);
    lemma_rearranged_none_mergeable(d, u, i1);
    lemma_merge_all_none(u);
    lemma_stable_sorted_rearranged(u, volume_keys_spec(u), false);
    let i2 = choose|idx: Seq<int>| rearranged(u, defrag_spec(d), idx);
    lemma_rearranged_compose(d, u, defrag_spec(d), i1, i2);
}

/// Every space of `s` lies within `ext` along each axis.
pub open spec fn all_within(s: Seq<Space>, ext: Seq<int>) -> bool {
    forall|k: int| 0 <= k < s.len() ==> within(#[trigger] s[k], ext)
}

/// The spaces of `s` go from the smallest volume to the largest.
pub open spec fn by_volume(s: Seq<Space>) -> bool {
    forall|i: int, j: int| 0 <= i < j < s.len() ==> volume_of(#[trigger] s[i].size) <= volume_of(#[trigger] s[j].size)
}

/// Every space of `s` has a volume above 0.
pub open spec fn all_filled(s: Seq<Space>) -> bool {
    forall|k: int| 0 <= k < s.len() ==> volume_of(#[trigger] s[k].size) > 0
}

/// A rearrangement of spaces keeps what holds of each of them, and keeps
/// any two of them from sharing a complete face.
pub(crate) proof fn lemma_rearranged_spaces(s: Seq<Space>, ks: Seq<u128>, r: Seq<Space>, rk: Seq<u128>, idx: Seq<int>, ext: Seq<int>)
    requires
        stable_rearrangement(s, ks, r, rk, idx),
    ensures
        all_ok(s) ==> all_ok(r),
        all_within(s, ext) ==> all_within(r, ext),
        all_filled(s) ==> all_filled(r),
        none_mergeable(s) ==> none_mergeable(r),
        spaces_disjoint(s) ==> spaces_disjoint(r),
        forall|p: [u64; 3], e: Seq<int>| apart_from_all(s, p, e) ==> #[trigger] apart_from_all(r, p, e),
{
    assert forall|k: int| 0 <= k < r.len() implies r[k] == s[idx[k]] && 0 <= idx[k] < s.len() by {}
    if spaces_disjoint(s) {
        assert forall|i: int, j: int|
            0 <= i < r.len() && 0 <= j < r.len() && i != j implies #[trigger] space_apart(
            r[i],
            r[j].position_xyz,
            xyz_int(r[j].size),
        ) by {
            assert(r[i] == s[idx[i]]);
            assert(r[j] == s[idx[j]]);
            if i < j {
                assert(idx[i] != idx[j]);
            } else {
                assert(idx[j] != idx[i]);
            }
            assert(space_apart(s[idx[i]], s[idx[j]].position_xyz, xyz_int(s[idx[j]].size)));
        }
    }
    assert forall|p: [u64; 3], e: Seq<int>| apart_from_all(s, p, e) implies #[trigger] apart_from_all(r, p, e) by {
        assert forall|k: int| 0 <= k < r.len() implies #[trigger] space_apart(r[k], p, e) by {
            assert(space_apart(s[idx[k]], p, e));
        }
    }
    if none_mergeable(s) {
        assert forall|i: int, j: int, a: int|
            0 <= i < r.len() && 0 <= j < r.len() && i != j && 0 <= a < 3 implies !#[trigger] mergeable(r[i], r[j], a) by {
            assert(r[i] == s[idx[i]]);
            assert(r[j] == s[idx[j]]);
            if i < j {
                assert(idx[i] != idx[j]);
            } else {
                assert(idx[j] != idx[i]);
            }
        }
    }
}

/// Appending spaces adds their total volume.
pub proof fn lemma_total_volume_concat(a: Seq<Space>, b: Seq<Space>)
    ensures
        total_volume(a + b) == total_volume(a) + total_volume(b),
    decreases b.len(),
{
    if b.len() == 0 {
        assert(a + b =~= a);
    } else {
        lemma_total_volume_concat(a, b.drop_last());
        assert((a + b).drop_last() =~= a + b.drop_last());
    }
}

/// A canonical space inside another lies within whatever bounds the other.
pub(crate) proof fn lemma_inside_within(s: Space, outer: Space, ext: Seq<int>)
    requires
        canonical(s.size),
        canonical(outer.size),
        space_inside(s, outer),
        within(outer, ext),
    ensures
        within(s, ext),
{
    lemma_xyz_of_canonical(s.size);
    lemma_xyz_of_canonical(outer.size);
}

impl BinPacker3D {
    /// Joins, again and again, the first two free spaces that share a complete
    /// face, going through the spaces in order of their distance from the
    /// origin, until no two share one; then sorts the spaces by volume,
    /// smallest first.
    pub(crate) fn defrag(free_spaces: &Vec<Space>, Ghost(ext): Ghost<Seq<int>>) -> (r: Vec<Space>)
        requires
            all_ok(free_spaces@),
            all_within(free_spaces@, ext),
        ensures
            all_ok(r@),
            all_within(r@, ext),
            all_filled(free_spaces@) ==> all_filled(r@),
            total_volume(r@) == total_volume(free_spaces@),
            none_mergeable(r@),
            by_volume(r@),
            spaces_disjoint(free_spaces@) ==> spaces_disjoint(r@),
            forall|p: [u64; 3], e: Seq<int>|
                apart_from_all(free_spaces@, p, e) ==> #[trigger] apart_from_all(r@, p, e),
            forall|pt: Seq<int>| #[trigger] covered(r@, pt) == covered(free_spaces@, pt),
            r@ == defrag_spec(free_spaces@),
    {
        let mut new_spaces: Vec<Space> = Vec::new();
        let mut k: usize = 0;
        while k < free_spaces.len()
            invariant
                k <= free_spaces@.len(),
                new_spaces@ == free_spaces@.take(k as int),
            decreases free_spaces@.len() - k,
        {
            new_spaces.push(free_spaces[k]);
            k += 1;
            assert(new_spaces@ =~= free_spaces@.take(k as int));
        }
        assert(new_spaces@ =~= free_spaces@);
        // Process in order of distance from the origin.
        let keys = distance_keys(&new_spaces);
        let ghost s0 = new_spaces@;
        let (sorted, sorted_keys) = stable_sort_by_key(new_spaces, keys, false);
        let mut new_spaces = sorted;
        let ghost start = new_spaces@;
        proof {
            assert(keys@ =~= distance_keys_spec(s0));
            let idx = choose|idx: Seq<int>| stable_rearrangement(s0, keys@, new_spaces@, sorted_keys@, idx);
            lemma_rearranged_spaces(s0, keys@, new_spaces@, sorted_keys@, idx, ext);
            lemma_total_volume_permutation(new_spaces@, s0);
            lemma_covered_permutation(new_spaces@, s0);
        }
        let ghost filled = all_filled(free_spaces@);
        let ghost disjoint = spaces_disjoint(free_spaces@);
        let mut adjacent_found: bool = true;
        while adjacent_found
            invariant
                all_ok(new_spaces@),
                all_within(new_spaces@, ext),
                filled ==> all_filled(new_spaces@),
                disjoint ==> spaces_disjoint(new_spaces@),
                forall|pt: Seq<int>| #[trigger] covered(new_spaces@, pt) == covered(free_spaces@, pt),
                forall|p: [u64; 3], e: Seq<int>|
                    apart_from_all(free_spaces@, p, e) ==> #[trigger] apart_from_all(new_spaces@, p, e),
                total_volume(new_spaces@) == total_volume(free_spaces@),
                !adjacent_found ==> none_mergeable(new_spaces@),
                merge_all(new_spaces@) == merge_all(start),
                start == stable_sorted(free_spaces@, distance_keys_spec(free_spaces@), false).0,
            decreases new_spaces@.len() + if adjacent_found { 1int } else { 0int },
        {
            adjacent_found = false;
            match find_merge(&new_spaces) {
                Some((i, j, axis)) => {
                    let ghost s = new_spaces@;
                    let merged = merge(&new_spaces[i], &new_spaces[j], axis);
                    new_spaces.remove(j);
                    new_spaces.remove(i);
                    // Spaces are processed in order of distance from the origin,
                    // so the merged space goes first.
                    new_spaces.insert(0, merged);
                    proof {
                        let s1 = s.remove(j as int);
                        let s2 = s1.remove(i as int);
                        assert(s1[i as int] == s[i as int]);
                        lemma_total_volume_remove(s, j as int);
                        lemma_total_volume_remove(s1, i as int);
                        lemma_total_volume_insert(s2, 0, merged);
                        assert(new_spaces@ == s2.insert(0, merged));
                        assert(new_spaces@ == after_merge(s, i as int, j as int, axis_pos(axis)));
                        lemma_after_merge_apart(s, i as int, j as int, axis_pos(axis));
                        lemma_after_merge_covers(s, i as int, j as int, axis_pos(axis));
                        assert(within(merged, ext));
                        assert forall|m: int| 0 <= m < new_spaces@.len() implies {
                            &&& space_ok(#[trigger] new_spaces@[m])
                            &&& within(new_spaces@[m], ext)
                            &&& filled ==> volume_of(new_spaces@[m].size) > 0
                        } by {
                            if m == 0 {
                            } else if m - 1 < i {
                                assert(new_spaces@[m] == s[m - 1]);
                            } else if m < j {
                                assert(new_spaces@[m] == s[m]);
                            } else {
                                assert(new_spaces@[m] == s[m + 1]);
                            }
                        }
                    }
                    adjacent_found = true;
                },
                None => {},
            }
        }
        // Arrange them from smallest volume to largest, for first-fit.
        let ghost s1 = new_spaces@;
        proof {
            assert(first_merge(s1) is None) by {
                if first_merge(s1) is Some {
                    let (i, j, a) = choose|i: int, j: int, a: int| is_first_merge(s1, i, j, a);
                    assert(mergeable(s1[i], s1[j], a));
                }
            }
            assert(merge_all(s1) == s1);
        }
        let r = sort_by_volume(new_spaces);
        proof {
            let idx = choose|idx: Seq<int>| stable_rearrangement(s1, volume_keys_spec(s1), r@, volume_keys_spec(r@), idx);
            lemma_rearranged_spaces(s1, volume_keys_spec(s1), r@, volume_keys_spec(r@), idx, ext);
            lemma_total_volume_permutation(r@, s1);
            lemma_covered_permutation(r@, s1);
        }
        r
    }
}

} // verus!
