//! Operations on vectors of group elements: generating a party's input set,
//! masking a set with a secret scalar, and counting common elements.

use crate::group::{le_nat, mask_facts, ristretto_decodes, ristretto_hash, ristretto_scale, Point};
use crate::encoding_set::{array_views, count_common};
use vstd::prelude::*;

verus! {

/// The encodings of `points`, in order.
pub open spec fn views(points: Seq<Point>) -> Seq<Seq<u8>> {
    points.map_values(|p: Point| p@)
}

/// The set of encodings of `points`.
pub open spec fn encodings(points: Seq<Point>) -> Set<Seq<u8>> {
    views(points).to_set()
}

/// The number of distinct group elements that occur in both `a` and `b`.
pub open spec fn intersection_size(a: Seq<Point>, b: Seq<Point>) -> nat {
    encodings(a).intersect(encodings(b)).len()
}

/// The four little-endian bytes of `x`.
pub open spec fn u32_le_bytes(x: u32) -> Seq<u8> {
    seq![
        (x % 256) as u8,
        ((x / 256) % 256) as u8,
        ((x / 65536) % 256) as u8,
        (x / 16777216) as u8,
    ]
}

/// The encoding of the `i`-th generated input element: the hash of the four
/// little-endian bytes of `i` taken as a `u32` (so modulo 2^32).
pub open spec fn generated_encoding(i: int) -> Seq<u8> {
    ristretto_hash(u32_le_bytes(i as u32))
}

/// The four little-endian bytes of `x`.
fn le_bytes(x: u32) -> (bytes: [u8; 4])
    ensures
        bytes@ == u32_le_bytes(x),
{
    let bytes = [
        (x % 256) as u8,
        ((x / 256) % 256) as u8,
        ((x / 65536) % 256) as u8,
        (x / 16777216) as u8,
    ];
    assert(bytes@ =~= u32_le_bytes(x));
    bytes
}

/// The input set of `n` elements: element `i` is the hash of the
/// little-endian bytes of `i` as a `u32`.
pub fn generate_points(n: usize) -> (points: Vec<Point>)
    ensures
        points.len() == n,
        forall|i: int| 0 <= i < n ==> #[trigger] points[i]@ == generated_encoding(i),
        forall|i: int| 0 <= i < n ==> ristretto_decodes(#[trigger] generated_encoding(i)),
{
    let mut points: Vec<Point> = Vec::new();
    let mut i: usize = 0;
    while i < n
        invariant
            i <= n,
            points.len() == i,
            forall|j: int| 0 <= j < i ==> #[trigger] points[j]@ == generated_encoding(j),
            forall|j: int| 0 <= j < i ==> ristretto_decodes(#[trigger] generated_encoding(j)),
        decreases n - i,
    {
        let bytes = le_bytes(i as u32);
        let p = Point::hash_from_bytes(bytes.as_slice());
        points.push(p);
        i = i + 1;
    }
    points
}

/// Every element of `points` multiplied by the scalar whose bytes are `c`,
/// in the same order.
pub fn cmult_vec(points: Vec<Point>, c: [u8; 32]) -> (result: Vec<Point>)
    ensures
        result.len() == points.len(),
        forall|i: int|
            0 <= i < points.len() ==> #[trigger] result[i]@ == ristretto_scale(points[i]@, c@),
        forall|i: int| 0 <= i < points.len() ==> mask_facts(#[trigger] points[i]@, c@),
{
    let mut result: Vec<Point> = Vec::new();
    let mut i: usize = 0;
    while i < points.len()
        invariant
            i <= points.len(),
            result.len() == i,
            forall|j: int|
                0 <= j < i ==> #[trigger] result[j]@ == ristretto_scale(points[j]@, c@),
            forall|j: int| 0 <= j < i ==> mask_facts(#[trigger] points[j]@, c@),
        decreases points.len() - i,
    {
        let p = points[i].mul(&c);
        result.push(p);
        i = i + 1;
    }
    result
}

/// The number of distinct group elements that occur in both sets.
pub fn intersect_size(set1: Vec<Point>, set2: Vec<Point>) -> (count: usize)
    ensures
        count == intersection_size(set1@, set2@),
{
    let bytes1 = encodings_of(&set1);
    let bytes2 = encodings_of(&set2);
    count_common(&bytes1, &bytes2)
}

/// The encodings of `points`, in order.
fn encodings_of(points: &Vec<Point>) -> (bytes: Vec<[u8; 32]>)
    ensures
        array_views(bytes@) == views(points@),
{
    let mut bytes: Vec<[u8; 32]> = Vec::new();
    let mut i: usize = 0;
    while i < points.len()
        invariant
            i <= points.len(),
            bytes.len() == i,
            forall|j: int| 0 <= j < i ==> #[trigger] bytes@[j]@ == points@[j]@,
        decreases points.len() - i,
    {
        bytes.push(points[i].to_bytes());
        i = i + 1;
    }
    assert(array_views(bytes@) =~= views(points@));
    bytes
}

} // verus!

verus! {

/// Two sequences that hold the same items as often hold the same items.
pub(crate) proof fn lemma_same_multiset_same_set<A>(s1: Seq<A>, s2: Seq<A>)
    requires
        s1.to_multiset() == s2.to_multiset(),
    ensures
        s1.to_set() == s2.to_set(),
{
    broadcast use vstd::seq_lib::group_to_multiset_ensures;

    assert forall|x: A| s1.to_set().contains(x) == s2.to_set().contains(x) by {
        vstd::seq_lib::to_multiset_contains(s1, x);
        vstd::seq_lib::to_multiset_contains(s2, x);
    }
    assert(s1.to_set() =~= s2.to_set());
}

/// The number of common elements does not depend on the order of the
/// arguments.
pub proof fn lemma_intersection_size_symmetric(a: Seq<Point>, b: Seq<Point>)
    ensures
        intersection_size(a, b) == intersection_size(b, a),
{
    assert(encodings(a).intersect(encodings(b)) =~= encodings(b).intersect(encodings(a)));
}

/// There are no more common elements than elements in either set.
pub proof fn lemma_intersection_size_bounded(a: Seq<Point>, b: Seq<Point>)
    ensures
        intersection_size(a, b) <= a.len(),
        intersection_size(a, b) <= b.len(),
{
    broadcast use vstd::seq_lib::group_seq_lib_default;
    broadcast use vstd::set_lib::group_set_properties;

    views(a).lemma_cardinality_of_set();
    views(b).lemma_cardinality_of_set();
    vstd::set_lib::lemma_len_intersect(encodings(a), encodings(b));
    assert(encodings(a).intersect(encodings(b)) =~= encodings(b).intersect(encodings(a)));
    vstd::set_lib::lemma_len_intersect(encodings(b), encodings(a));
}

/// The number of common elements depends only on which elements each set
/// holds, not on their order: shuffling either set leaves it unchanged.
pub proof fn lemma_intersection_size_reordered(a1: Seq<Point>, a2: Seq<Point>, b1: Seq<Point>, b2: Seq<Point>)
    requires
        views(a1).to_multiset() == views(a2).to_multiset(),
        views(b1).to_multiset() == views(b2).to_multiset(),
    ensures
        intersection_size(a1, b1) == intersection_size(a2, b2),
{
    lemma_same_multiset_same_set(views(a1), views(a2));
    lemma_same_multiset_same_set(views(b1), views(b2));
}

} // verus!

verus! {

/// The bytes that input `x` is hashed from are the little-endian bytes of
/// `x`: read as a little-endian number, they are `x`.
pub proof fn lemma_u32_le_bytes_is_little_endian(x: u32)
    ensures
        u32_le_bytes(x).len() == 4,
        le_nat(u32_le_bytes(x)) == x,
{
    let b = u32_le_bytes(x);
    assert(b.skip(4) =~= Seq::<u8>::empty());
    assert(b.skip(3).drop_first() =~= b.skip(4));
    assert(b.skip(2).drop_first() =~= b.skip(3));
    assert(b.skip(1).drop_first() =~= b.skip(2));
    assert(b.drop_first() =~= b.skip(1));
    assert(le_nat(b.skip(4)) == 0);
    assert(le_nat(b.skip(3)) == b[3] + 256 * le_nat(b.skip(4)));
    assert(le_nat(b.skip(2)) == b[2] + 256 * le_nat(b.skip(3)));
    assert(le_nat(b.skip(1)) == b[1] + 256 * le_nat(b.skip(2)));
    assert(le_nat(b) == b[0] + 256 * le_nat(b.skip(1)));
    let xi = x as int;
    assert(xi % 256 + 256 * ((xi / 256) % 256 + 256 * ((xi / 65536) % 256 + 256 * (xi / 16777216)))
        == xi) by (nonlinear_arith)
        requires
            0 <= xi < 0x1_0000_0000,
    ;
}

/// Distinct inputs below 2^32 are hashed from distinct bytes, so the set
/// that `generate_points` makes holds distinct points unless the hash
/// collides.
pub proof fn lemma_generated_inputs_distinct(i: int, j: int)
    requires
        0 <= i < j < 0x1_0000_0000,
    ensures
        u32_le_bytes(i as u32) != u32_le_bytes(j as u32),
{
    lemma_u32_le_bytes_is_little_endian(i as u32);
    lemma_u32_le_bytes_is_little_endian(j as u32);
}

} // verus!
