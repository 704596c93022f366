//! The wire format of a set of group elements: the number of elements as
//! eight little-endian bytes, then the 32-byte encoding of each element.

use crate::group::{le_nat, ristretto_decodes, Point};
use crate::points::views;
use vstd::prelude::*;

verus! {

/// The eight little-endian bytes of `x`.
pub open spec fn u64_le_bytes(x: u64) -> Seq<u8> {
    seq![
        (x & 0xff) as u8,
        ((x >> 8u64) & 0xff) as u8,
        ((x >> 16u64) & 0xff) as u8,
        ((x >> 24u64) & 0xff) as u8,
        ((x >> 32u64) & 0xff) as u8,
        ((x >> 40u64) & 0xff) as u8,
        ((x >> 48u64) & 0xff) as u8,
        ((x >> 56u64) & 0xff) as u8,
    ]
}

/// The number whose little-endian bytes are the first eight of `b`.
pub open spec fn le_u64(b: Seq<u8>) -> u64 {
    (b[0] as u64) | ((b[1] as u64) << 8u64) | ((b[2] as u64) << 16u64) | ((b[3] as u64) << 24u64)
        | ((b[4] as u64) << 32u64) | ((b[5] as u64) << 40u64) | ((b[6] as u64) << 48u64) | ((
    b[7] as u64) << 56u64)
}

/// The bytes of the encodings `encs` one after the other.
pub open spec fn concat_encodings(encs: Seq<Seq<u8>>) -> Seq<u8> {
    Seq::new(32 * encs.len(), |k: int| encs[k / 32][k % 32])
}

/// The message that carries the elements whose encodings are `encs`.
pub open spec fn wire_message(encs: Seq<Seq<u8>>) -> Seq<u8> {
    u64_le_bytes(encs.len() as u64) + concat_encodings(encs)
}

/// The number of elements that the header of `message` announces.
pub open spec fn announced_count(message: Seq<u8>) -> int {
    le_u64(message.take(8)) as int
}

/// The `j`-th 32-byte block after the header of `message`.
pub open spec fn block(message: Seq<u8>, j: int) -> Seq<u8> {
    message.subrange(8 + 32 * j, 8 + 32 * j + 32)
}

/// Whether `message` is a header followed by exactly as many blocks as it
/// announces, each the canonical encoding of a group element.
pub open spec fn is_wire_message(message: Seq<u8>) -> bool {
    &&& message.len() >= 8
    &&& message.len() == 8 + 32 * announced_count(message)
    &&& forall|j: int| 0 <= j < announced_count(message) ==> ristretto_decodes(#[trigger] block(message, j))
}

proof fn lemma_le_u64_of_bytes(x: u64)
    ensures
        le_u64(u64_le_bytes(x)) == x,
{
    assert(((x & 0xff) as u8 as u64) | ((((x >> 8u64) & 0xff) as u8 as u64) << 8u64) | ((((x
        >> 16u64) & 0xff) as u8 as u64) << 16u64) | ((((x >> 24u64) & 0xff) as u8 as u64)
        << 24u64) | ((((x >> 32u64) & 0xff) as u8 as u64) << 32u64) | ((((x >> 40u64) & 0xff)
        as u8 as u64) << 40u64) | ((((x >> 48u64) & 0xff) as u8 as u64) << 48u64) | ((((x
        >> 56u64) & 0xff) as u8 as u64) << 56u64) == x) by (bit_vector);
}

proof fn lemma_le_bytes_of_le_u64(b: Seq<u8>)
    requires
        b.len() == 8,
    ensures
        u64_le_bytes(le_u64(b)) =~= b,
{
    let (b0, b1, b2, b3, b4, b5, b6, b7) = (b[0], b[1], b[2], b[3], b[4], b[5], b[6], b[7]);
    let x: u64 = le_u64(b);
    assert(x == (b0 as u64) | ((b1 as u64) << 8u64) | ((b2 as u64) << 16u64) | ((b3 as u64)
        << 24u64) | ((b4 as u64) << 32u64) | ((b5 as u64) << 40u64) | ((b6 as u64) << 48u64) | ((
    b7 as u64) << 56u64));
    assert({
        &&& (x & 0xff) as u8 == b0
        &&& ((x >> 8u64) & 0xff) as u8 == b1
        &&& ((x >> 16u64) & 0xff) as u8 == b2
        &&& ((x >> 24u64) & 0xff) as u8 == b3
        &&& ((x >> 32u64) & 0xff) as u8 == b4
        &&& ((x >> 40u64) & 0xff) as u8 == b5
        &&& ((x >> 48u64) & 0xff) as u8 == b6
        &&& ((x >> 56u64) & 0xff) as u8 == b7
    }) by (bit_vector)
        requires
            x == (b0 as u64) | ((b1 as u64) << 8u64) | ((b2 as u64) << 16u64) | ((b3 as u64)
                << 24u64) | ((b4 as u64) << 32u64) | ((b5 as u64) << 40u64) | ((b6 as u64)
                << 48u64) | ((b7 as u64) << 56u64),
    ;
}

proof fn lemma_block_index(j: int, t: int)
    requires
        0 <= j,
        0 <= t < 32,
    ensures
        (32 * j + t) / 32 == j,
        (32 * j + t) % 32 == t,
{
    assert((32 * j + t) / 32 == j) by (nonlinear_arith)
        requires
            0 <= j,
            0 <= t < 32,
    ;
    assert((32 * j + t) % 32 == t) by (nonlinear_arith)
        requires
            0 <= j,
            0 <= t < 32,
    ;
}

/// The message that carries `points`.
pub fn encode_points(points: &Vec<Point>) -> (message: Vec<u8>)
    ensures
        message@ == wire_message(views(points@)),
        is_wire_message(message@),
        announced_count(message@) == points.len(),
        forall|j: int| 0 <= j < points.len() ==> #[trigger] block(message@, j) == points@[j]@,
{
    let n: u64 = points.len() as u64;
    let mut message: Vec<u8> = Vec::new();
    message.push((n & 0xff) as u8);
    message.push(((n >> 8u64) & 0xff) as u8);
    message.push(((n >> 16u64) & 0xff) as u8);
    message.push(((n >> 24u64) & 0xff) as u8);
    message.push(((n >> 32u64) & 0xff) as u8);
    message.push(((n >> 40u64) & 0xff) as u8);
    message.push(((n >> 48u64) & 0xff) as u8);
    message.push(((n >> 56u64) & 0xff) as u8);
    let ghost encs = views(points@);
    assert(message@ =~= u64_le_bytes(n));
    let mut i: usize = 0;
    while i < points.len()
        invariant
            i <= points.len(),
            n == points.len(),
            encs == views(points@),
            message@ =~= u64_le_bytes(n) + Seq::new(32 * i as nat, |k: int| encs[k / 32][k % 32]),
            forall|k: int| 0 <= k < i ==> ristretto_decodes(#[trigger] encs[k]),
        decreases points.len() - i,
    {
        let bytes = points[i].to_bytes();
        assert(ristretto_decodes(encs[i as int]));
        let mut t: usize = 0;
        while t < 32
            invariant
                i < points.len(),
                t <= 32,
                n == points.len(),
                encs == views(points@),
                bytes@ == encs[i as int],
                forall|k: int| 0 <= k < i ==> ristretto_decodes(#[trigger] encs[k]),
                message@ =~= u64_le_bytes(n) + Seq::new(
                    (32 * i + t) as nat,
                    |k: int| encs[k / 32][k % 32],
                ),
            decreases 32 - t,
        {
            message.push(bytes[t]);
            proof {
                lemma_block_index(i as int, t as int);
            }
            t = t + 1;
        }
        i = i + 1;
    }
    proof {
        broadcast use crate::group::lemma_point_len;

        assert forall|j: int| 0 <= j < encs.len() implies (#[trigger] encs[j]).len() == 32 by {
            assert(encs[j] == points@[j]@);
        }
        lemma_wire_message_decodes(encs);
    }
    message
}

/// The number whose little-endian bytes are the first eight of `b`.
pub(crate) fn read_le_u64(b: &[u8]) -> (x: u64)
    requires
        b@.len() >= 8,
    ensures
        x == le_u64(b@),
{
    (b[0] as u64) | ((b[1] as u64) << 8u64) | ((b[2] as u64) << 16u64) | ((b[3] as u64) << 24u64)
        | ((b[4] as u64) << 32u64) | ((b[5] as u64) << 40u64) | ((b[6] as u64) << 48u64) | ((
    b[7] as u64) << 56u64)
}

/// The length of the whole message whose first eight bytes are `header`:
/// the header and as many 32-byte blocks as it announces. `None` when that
/// length does not fit a `usize`.
pub fn message_len(header: &[u8; 8]) -> (len: Option<usize>)
    ensures
        match len {
            Some(n) => n == 8 + 32 * le_u64(header@),
            None => 8 + 32 * le_u64(header@) > usize::MAX,
        },
{
    let count: u64 = read_le_u64(header.as_slice());
    if count > ((usize::MAX - 8) / 32) as u64 {
        None
    } else {
        let n: usize = count as usize;
        Some(8 + 32 * n)
    }
}

/// The elements that `message` carries, if it is a well-formed message.
pub fn decode_points(message: &[u8]) -> (points: Option<Vec<Point>>)
    ensures
        points is Some <==> is_wire_message(message@),
        points matches Some(v) ==> wire_message(views(v@)) == message@,
        points matches Some(v) ==> v.len() == announced_count(message@),
        points matches Some(v) ==> forall|j: int|
            0 <= j < v.len() ==> #[trigger] v@[j]@ == block(message@, j),
{
    if message.len() < 8 {
        return None;
    }
    let count: u64 = read_le_u64(message);
    assert(count == announced_count(message@));
    let body: usize = message.len() - 8;
    if body % 32 != 0 || (body / 32) as u64 != count {
        return None;
    }
    let n: usize = body / 32;
    let mut points: Vec<Point> = Vec::new();
    let mut j: usize = 0;
    while j < n
        invariant
            j <= n,
            message.len() == 8 + 32 * n,
            n == count,
            count == announced_count(message@),
            points.len() == j,
            forall|k: int| 0 <= k < j ==> #[trigger] points@[k]@ == block(message@, k),
            forall|k: int| 0 <= k < j ==> ristretto_decodes(#[trigger] block(message@, k)),
        decreases n - j,
    {
        let start: usize = 8 + 32 * j;
        let mut bytes = [0u8; 32];
        let mut t: usize = 0;
        while t < 32
            invariant
                j < n,
                message.len() == 8 + 32 * n,
                start == 8 + 32 * j,
                t <= 32,
                forall|u: int| 0 <= u < t ==> bytes@[u] == message@[start + u],
            decreases 32 - t,
        {
            bytes[t] = message[start + t];
            t = t + 1;
        }
        assert(bytes@ =~= block(message@, j as int));
        match Point::from_bytes(bytes) {
            Some(p) => {
                points.push(p);
            },
            None => {
                return None;
            },
        }
        j = j + 1;
    }
    proof {
        let v = views(points@);
        assert(v.len() == count);
        assert(u64_le_bytes(count) =~= message@.take(8)) by {
            assert(le_u64(message@.take(8)) == count);
            let b = message@.take(8);
            lemma_le_bytes_of_le_u64(b);
        }
        assert forall|k: int| 0 <= k < 32 * v.len() implies concat_encodings(v)[k] == message@[8 + k] by {
            let j = k / 32;
            let t = k % 32;
            assert(k == 32 * j + t);
            assert(v[j] == block(message@, j));
        }
        assert(wire_message(v) =~= message@);
    }
    Some(points)
}

} // verus!

verus! {

/// A message built from canonical encodings is well formed: it announces as
/// many elements as were written, and its blocks are the encodings written.
/// With the contracts of `encode_points` and `decode_points` this is the law
/// that decoding gives back what encoding wrote.
pub proof fn lemma_wire_message_decodes(encs: Seq<Seq<u8>>)
    requires
        encs.len() <= u64::MAX,
        forall|j: int| 0 <= j < encs.len() ==> (#[trigger] encs[j]).len() == 32,
        forall|j: int| 0 <= j < encs.len() ==> ristretto_decodes(#[trigger] encs[j]),
    ensures
        is_wire_message(wire_message(encs)),
        announced_count(wire_message(encs)) == encs.len(),
        forall|j: int| 0 <= j < encs.len() ==> #[trigger] block(wire_message(encs), j) == encs[j],
{
    let m = wire_message(encs);
    lemma_le_u64_of_bytes(encs.len() as u64);
    assert(m.take(8) =~= u64_le_bytes(encs.len() as u64));
    assert forall|j: int| 0 <= j < encs.len() implies #[trigger] block(m, j) == encs[j] by {
        assert forall|t: int| 0 <= t < 32 implies block(m, j)[t] == encs[j][t] by {
            lemma_block_index(j, t);
            assert(block(m, j)[t] == m[8 + 32 * j + t]);
            assert(m[8 + 32 * j + t] == concat_encodings(encs)[32 * j + t]);
        }
        assert(block(m, j) =~= encs[j]);
    }
}

/// Two lists of 32-byte encodings that give the same message are equal: a
/// message determines the elements that it carries.
pub proof fn lemma_wire_message_injective(a: Seq<Seq<u8>>, b: Seq<Seq<u8>>)
    requires
        a.len() <= u64::MAX,
        b.len() <= u64::MAX,
        forall|j: int| 0 <= j < a.len() ==> (#[trigger] a[j]).len() == 32,
        forall|j: int| 0 <= j < b.len() ==> (#[trigger] b[j]).len() == 32,
        wire_message(a) == wire_message(b),
    ensures
        a == b,
{
    let m = wire_message(a);
    assert(a.len() == b.len()) by {
        assert(m.len() == 8 + 32 * a.len());
        assert(wire_message(b).len() == 8 + 32 * b.len());
    }
    assert forall|j: int| 0 <= j < a.len() implies a[j] == b[j] by {
        assert forall|t: int| 0 <= t < 32 implies a[j][t] == b[j][t] by {
            lemma_block_index(j, t);
            assert(m[8 + 32 * j + t] == concat_encodings(a)[32 * j + t]);
            assert(wire_message(b)[8 + 32 * j + t] == concat_encodings(b)[32 * j + t]);
        }
        assert(a[j] =~= b[j]);
    }
    assert(a =~= b);
}

/// Decoding gives back what encoding wrote: a list of points decoded from the
/// message that carries `points`, block by block as `decode_points` does,
/// holds the same points in the same order.
pub proof fn lemma_wire_roundtrip(points: Seq<Point>, decoded: Seq<Point>)
    requires
        is_wire_message(wire_message(views(points))),
        announced_count(wire_message(views(points))) == points.len(),
        forall|j: int|
            0 <= j < points.len() ==> #[trigger] block(wire_message(views(points)), j)
                == points[j]@,
        decoded.len() == announced_count(wire_message(views(points))),
        forall|j: int|
            0 <= j < decoded.len() ==> #[trigger] decoded[j]@ == block(
                wire_message(views(points)),
                j,
            ),
    ensures
        views(decoded) == views(points),
{
    assert forall|j: int| 0 <= j < decoded.len() implies views(decoded)[j] == views(points)[j] by {
        assert(decoded[j]@ == block(wire_message(views(points)), j));
    }
    assert(views(decoded) =~= views(points));
}

} // verus!

verus! {

proof fn lemma_le_nat_8(b: Seq<u8>)
    requires
        b.len() == 8,
    ensures
        le_nat(b) == b[0] + 256 * (b[1] + 256 * (b[2] + 256 * (b[3] + 256 * (b[4] + 256 * (b[5]
            + 256 * (b[6] + 256 * b[7])))))),
{
    assert(b.skip(8) =~= Seq::<u8>::empty());
    assert(le_nat(b.skip(8)) == 0);
    assert(b.skip(7).drop_first() =~= b.skip(8));
    assert(le_nat(b.skip(7)) == b[7] + 256 * le_nat(b.skip(8)));
    assert(b.skip(6).drop_first() =~= b.skip(7));
    assert(le_nat(b.skip(6)) == b[6] + 256 * le_nat(b.skip(7)));
    assert(b.skip(5).drop_first() =~= b.skip(6));
    assert(le_nat(b.skip(5)) == b[5] + 256 * le_nat(b.skip(6)));
    assert(b.skip(4).drop_first() =~= b.skip(5));
    assert(le_nat(b.skip(4)) == b[4] + 256 * le_nat(b.skip(5)));
    assert(b.skip(3).drop_first() =~= b.skip(4));
    assert(le_nat(b.skip(3)) == b[3] + 256 * le_nat(b.skip(4)));
    assert(b.skip(2).drop_first() =~= b.skip(3));
    assert(le_nat(b.skip(2)) == b[2] + 256 * le_nat(b.skip(3)));
    assert(b.skip(1).drop_first() =~= b.skip(2));
    assert(le_nat(b.skip(1)) == b[1] + 256 * le_nat(b.skip(2)));
    assert(b.drop_first() =~= b.skip(1));
}

/// The header number is the little-endian number of the first eight bytes:
/// byte `k` counts `256^k` times.
pub proof fn lemma_le_u64_is_little_endian(b: Seq<u8>)
    requires
        b.len() >= 8,
    ensures
        le_u64(b) as nat == le_nat(b.take(8)),
{
    let t = b.take(8);
    lemma_le_nat_8(t);
    let (b0, b1, b2, b3, b4, b5, b6, b7) = (b[0], b[1], b[2], b[3], b[4], b[5], b[6], b[7]);
    assert(t[0] == b0 && t[1] == b1 && t[2] == b2 && t[3] == b3 && t[4] == b4 && t[5] == b5 && t[6] == b6 && t[7] == b7);
    assert((b0 as u64) | ((b1 as u64) << 8u64) | ((b2 as u64) << 16u64) | ((b3 as u64) << 24u64)
        | ((b4 as u64) << 32u64) | ((b5 as u64) << 40u64) | ((b6 as u64) << 48u64) | ((b7 as u64)
        << 56u64) == b0 + 256 * (b1 + 256 * (b2 + 256 * (b3 + 256 * (b4 + 256 * (b5 + 256 * (b6 + 256
        * b7))))))) by (bit_vector);
}

/// The header written for `x` is the little-endian bytes of `x`: read as a
/// little-endian number, it is `x`.
pub proof fn lemma_u64_le_bytes_is_little_endian(x: u64)
    ensures
        u64_le_bytes(x).len() == 8,
        le_nat(u64_le_bytes(x)) == x,
{
    lemma_le_u64_of_bytes(x);
    lemma_le_u64_is_little_endian(u64_le_bytes(x));
    assert(u64_le_bytes(x).take(8) =~= u64_le_bytes(x));
}

} // verus!
