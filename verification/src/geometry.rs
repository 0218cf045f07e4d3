//! Axes, dimensions, and the arithmetic on sizes made of three lengths.

use vstd::prelude::*;

verus! {

/// One of the three coordinate axes. Their order fixes the coordinate
/// convention: X is the width, Y the height (up) and Z the depth.
#[derive(Clone, Copy, Debug, PartialEq, Eq, Structural)]
pub enum AxisSize {
    Width,
    Height,
    Depth,
}

/// Position of an axis in an `[_; 3]` coordinate triple.
pub open spec fn axis_pos(axis: AxisSize) -> int {
    match axis {
        AxisSize::Width => 0,
        AxisSize::Height => 1,
        AxisSize::Depth => 2,
    }
}

impl From<AxisSize> for usize {
    fn from(axis: AxisSize) -> (r: usize) {
        match axis {
            AxisSize::Width => 0,
            AxisSize::Height => 1,
            AxisSize::Depth => 2,
        }
    }
}

impl vstd::std_specs::convert::FromSpecImpl<AxisSize> for usize {
    open spec fn obeys_from_spec() -> bool {
        true
    }

    open spec fn from_spec(axis: AxisSize) -> usize {
        match axis {
            AxisSize::Width => 0,
            AxisSize::Height => 1,
            AxisSize::Depth => 2,
        }
    }
}

/// The coordinate of `arr` along `axis`.
pub fn index<T: Copy>(arr: &[T; 3], axis: AxisSize) -> (r: T)
    ensures
        r == arr@[axis_pos(axis)],
{
    arr[usize::from(axis)]
}

/// Replaces the coordinate of `arr` along `axis` by `value`.
pub fn index_mut<T: Copy>(arr: &mut [T; 3], axis: AxisSize, value: T)
    ensures
        final(arr)@ == old(arr)@.update(axis_pos(axis), value),
{
    let i = usize::from(axis);
    arr[i] = value;
}

/// Largest length that a bin, an item or a space may have: with it the
/// volume of any of them fits in a `u128`.
pub const MAX_LENGTH: u64 = 1_099_511_627_776;

/// A length along one axis.
#[derive(Clone, Copy, Debug, PartialEq, Eq, Structural)]
pub struct Dimension {
    pub length: u64,
    pub axis: AxisSize,
}

/// Smallest of three values.
pub open spec fn min3(a: int, b: int, c: int) -> int {
    if a <= b && a <= c {
        a
    } else if b <= c {
        b
    } else {
        c
    }
}

/// Largest of three values.
pub open spec fn max3(a: int, b: int, c: int) -> int {
    if a >= b && a >= c {
        a
    } else if b >= c {
        b
    } else {
        c
    }
}

/// The value between the smallest and the largest of three values.
pub open spec fn mid3(a: int, b: int, c: int) -> int {
    a + b + c - min3(a, b, c) - max3(a, b, c)
}

/// The three lengths of `d`, in the order in which `d` holds them.
pub open spec fn lens(d: [Dimension; 3]) -> Seq<int> {
    seq![d[0].length as int, d[1].length as int, d[2].length as int]
}

/// The lengths of `d` placed by their axes: the coordinate of each axis is
/// the length of the last dimension in `d` that names it, and 0 where none does.
pub open spec fn xyz_of(d: [Dimension; 3]) -> Seq<u64> {
    seq![0u64, 0u64, 0u64].update(axis_pos(d[0].axis), d[0].length).update(
        axis_pos(d[1].axis),
        d[1].length,
    ).update(axis_pos(d[2].axis), d[2].length)
}

/// The three dimensions lie along three different axes: `d` holds one width,
/// one height and one depth, in some order.
pub open spec fn distinct_axes(d: [Dimension; 3]) -> bool {
    &&& d[0].axis != d[1].axis
    &&& d[0].axis != d[2].axis
    &&& d[1].axis != d[2].axis
}

/// The `i`-th dimension of `d` lies along the `i`-th axis.
pub open spec fn canonical(d: [Dimension; 3]) -> bool {
    &&& d[0].axis == AxisSize::Width
    &&& d[1].axis == AxisSize::Height
    &&& d[2].axis == AxisSize::Depth
}

/// No length of `d` exceeds `MAX_LENGTH`.
pub open spec fn bounded(d: [Dimension; 3]) -> bool {
    &&& d[0].length <= MAX_LENGTH
    &&& d[1].length <= MAX_LENGTH
    &&& d[2].length <= MAX_LENGTH
}

/// The volume enclosed by the three lengths of `d`.
pub open spec fn volume_of(d: [Dimension; 3]) -> int {
    d[0].length * d[1].length * d[2].length
}

/// The smallest, middle and largest of three values.
pub open spec fn sorted_triple(t: Seq<int>) -> (int, int, int) {
    (min3(t[0], t[1], t[2]), mid3(t[0], t[1], t[2]), max3(t[0], t[1], t[2]))
}

/// `xyz_of` as integers.
pub open spec fn xyz_int(d: [Dimension; 3]) -> Seq<int> {
    seq![xyz_of(d)[0] as int, xyz_of(d)[1] as int, xyz_of(d)[2] as int]
}

/// With distinct axes, each length stands at its axis in `xyz_of`, and the
/// placed lengths are the lengths of `d` in another order.
pub proof fn lemma_xyz_of_distinct(d: [Dimension; 3])
    requires
        distinct_axes(d),
    ensures
        xyz_of(d)[axis_pos(d[0].axis)] == d[0].length,
        xyz_of(d)[axis_pos(d[1].axis)] == d[1].length,
        xyz_of(d)[axis_pos(d[2].axis)] == d[2].length,
        sorted_triple(xyz_int(d)) == sorted_triple(lens(d)),
{
}

/// The lengths of a canonical size, placed by their axes, are its lengths.
pub proof fn lemma_xyz_of_canonical(d: [Dimension; 3])
    requires
        canonical(d),
    ensures
        xyz_int(d) == lens(d),
{
    assert(xyz_int(d) =~= lens(d));
}

/// The lengths of `d` placed by their axes, as `xyz_of` states.
pub fn dims_xyz(d: &[Dimension; 3]) -> (r: [u64; 3])
    ensures
        r@ == xyz_of(*d),
{
    let mut xyz: [u64; 3] = [0, 0, 0];
    index_mut(&mut xyz, d[0].axis, d[0].length);
    index_mut(&mut xyz, d[1].axis, d[1].length);
    index_mut(&mut xyz, d[2].axis, d[2].length);
    assert(xyz@ =~= xyz_of(*d));
    xyz
}

/// The volume enclosed by the three lengths of `d`.
pub fn dims_volume(d: &[Dimension; 3]) -> (r: u128)
    requires
        bounded(*d),
    ensures
        r == volume_of(*d),
{
    let a = d[0].length as u128;
    let b = d[1].length as u128;
    let c = d[2].length as u128;
    proof {
        lemma_volume_bound(a as int, b as int, c as int);
    }
    a * b * c
}

/// Three lengths no larger than `MAX_LENGTH` enclose a volume that fits in a `u128`.
pub proof fn lemma_volume_bound(a: int, b: int, c: int)
    requires
        0 <= a <= MAX_LENGTH,
        0 <= b <= MAX_LENGTH,
        0 <= c <= MAX_LENGTH,
    ensures
        0 <= a * b <= MAX_LENGTH * MAX_LENGTH,
        0 <= a * b * c <= MAX_LENGTH * MAX_LENGTH * MAX_LENGTH,
        MAX_LENGTH * MAX_LENGTH * MAX_LENGTH < u128::MAX,
{
    assert(0 <= a * b <= MAX_LENGTH * MAX_LENGTH) by (nonlinear_arith)
        requires
            0 <= a <= MAX_LENGTH,
            0 <= b <= MAX_LENGTH,
    ;
    assert(0 <= a * b * c <= MAX_LENGTH * MAX_LENGTH * MAX_LENGTH) by (nonlinear_arith)
        requires
            0 <= a * b <= MAX_LENGTH * MAX_LENGTH,
            0 <= c <= MAX_LENGTH,
    ;
}

/// The values of `t` from the smallest to the largest.
pub fn sort3_ascending(t: &[u64; 3]) -> (r: [u64; 3])
    ensures
        r[0] == min3(t[0] as int, t[1] as int, t[2] as int),
        r[1] == mid3(t[0] as int, t[1] as int, t[2] as int),
        r[2] == max3(t[0] as int, t[1] as int, t[2] as int),
{
    let (a, b, c) = (t[0], t[1], t[2]);
    let (lo, hi) = if a <= b {
        (a, b)
    } else {
        (b, a)
    };
    if c <= lo {
        [c, lo, hi]
    } else if c <= hi {
        [lo, c, hi]
    } else {
        [lo, hi, c]
    }
}

/// `o` lists the positions 0, 1 and 2 in an order that sorts `keys`
/// ascending and keeps positions with equal keys in their original order.
pub open spec fn stable_order(keys: Seq<int>, o: Seq<int>) -> bool {
    &&& o.len() == 3
    &&& 0 <= o[0] < 3 && 0 <= o[1] < 3 && 0 <= o[2] < 3
    &&& o[0] != o[1] && o[0] != o[2] && o[1] != o[2]
    &&& keys[o[0]] <= keys[o[1]] <= keys[o[2]]
    &&& keys[o[0]] == keys[o[1]] ==> o[0] < o[1]
    &&& keys[o[1]] == keys[o[2]] ==> o[1] < o[2]
}

/// `r` holds the dimensions of `d` sorted by length, shortest first, with
/// dimensions of equal length in the order in which `d` holds them.
pub open spec fn stably_sorted_dims(d: [Dimension; 3], r: [Dimension; 3]) -> bool {
    exists|o: Seq<int>|
        stable_order(lens(d), o) && r@ == seq![d[o[0]], d[o[1]], d[o[2]]]
}

/// The dimensions of `d` sorted by length, shortest first, dimensions of
/// equal length in the order in which `d` holds them.
pub open spec fn sorted_dims(d: [Dimension; 3]) -> [Dimension; 3] {
    choose|r: [Dimension; 3]| stably_sorted_dims(d, r)
}

/// There is only one stable sorting of three dimensions.
pub proof fn lemma_sorted_dims_unique(d: [Dimension; 3], r: [Dimension; 3])
    requires
        stably_sorted_dims(d, r),
    ensures
        sorted_dims(d) == r,
{
    let r2 = sorted_dims(d);
    assert(stably_sorted_dims(d, r2));
    let o = choose|o: Seq<int>| stable_order(lens(d), o) && r@ == seq![d[o[0]], d[o[1]], d[o[2]]];
    let o2 = choose|o: Seq<int>| stable_order(lens(d), o) && r2@ == seq![d[o[0]], d[o[1]], d[o[2]]];
    assert(o[0] == o2[0] && o[1] == o2[1] && o[2] == o2[2]);
    assert(r =~= r2);
}

/// The array `a` with its element at position `i` replaced by `x`.
pub open spec fn with3<T>(a: [T; 3], i: int, x: T) -> [T; 3] {
    if i == 0 {
        [x, a[1], a[2]]
    } else if i == 1 {
        [a[0], x, a[2]]
    } else {
        [a[0], a[1], x]
    }
}

/// Sorts the three dimensions of `d` by length, shortest first; dimensions of
/// equal length keep their order.
pub fn sort_dims_ascending(d: &[Dimension; 3]) -> (r: [Dimension; 3])
    ensures
        stably_sorted_dims(*d, r),
        lens(r) == seq![sorted_triple(lens(*d)).0, sorted_triple(lens(*d)).1, sorted_triple(lens(*d)).2],
        distinct_axes(*d) ==> distinct_axes(r),
        bounded(*d) ==> bounded(r),
        r[0] == d[0] || r[0] == d[1] || r[0] == d[2],
        r[1] == d[0] || r[1] == d[1] || r[1] == d[2],
        r[2] == d[0] || r[2] == d[1] || r[2] == d[2],
        r == sorted_dims(*d),
{
    let mut o: [usize; 3] = [0, 1, 2];
    if d[o[0]].length > d[o[1]].length {
        o = [o[1], o[0], o[2]];
    }
    if d[o[1]].length > d[o[2]].length {
        o = [o[0], o[2], o[1]];
    }
    if d[o[0]].length > d[o[1]].length {
        o = [o[1], o[0], o[2]];
    }
    let r = [d[o[0]], d[o[1]], d[o[2]]];
    proof {
        let os = seq![o[0] as int, o[1] as int, o[2] as int];
        assert(stable_order(lens(*d), os));
        assert(r@ =~= seq![d[os[0]], d[os[1]], d[os[2]]]);
        assert(lens(r) =~= seq![sorted_triple(lens(*d)).0, sorted_triple(lens(*d)).1, sorted_triple(lens(*d)).2]);
        lemma_sorted_dims_unique(*d, r);
    }
    r
}

/// A product of three factors does not depend on their order.
pub proof fn lemma_mul3_any_order(a: int, b: int, c: int)
    ensures
        a * b * c == a * c * b,
        a * b * c == b * a * c,
        a * b * c == b * c * a,
        a * b * c == c * a * b,
        a * b * c == c * b * a,
{
    assert(a * b * c == a * c * b) by (nonlinear_arith);
    assert(a * b * c == b * a * c) by (nonlinear_arith);
    assert(a * b * c == b * c * a) by (nonlinear_arith);
    assert(a * b * c == c * a * b) by (nonlinear_arith);
    assert(a * b * c == c * b * a) by (nonlinear_arith);
}

/// `i`, `j` and `k` are the positions 0, 1 and 2 in some order.
pub open spec fn is_perm3(i: int, j: int, k: int) -> bool {
    &&& 0 <= i < 3 && 0 <= j < 3 && 0 <= k < 3
    &&& i != j && i != k && j != k
}

/// The product of the three values of `t` does not depend on the order in
/// which they are taken.
pub proof fn lemma_product_perm(t: Seq<int>, i: int, j: int, k: int)
    requires
        t.len() == 3,
        is_perm3(i, j, k),
    ensures
        t[0] * t[1] * t[2] == t[i] * t[j] * t[k],
{
    lemma_mul3_any_order(t[0], t[1], t[2]);
}

/// The volume of a size is the product of its sorted lengths.
pub proof fn lemma_volume_sorted(d: [Dimension; 3])
    ensures
        volume_of(d) == sorted_triple(lens(d)).0 * sorted_triple(lens(d)).1 * sorted_triple(
            lens(d),
        ).2,
{
    lemma_mul3_any_order(d[0].length as int, d[1].length as int, d[2].length as int);
}

} // verus!
