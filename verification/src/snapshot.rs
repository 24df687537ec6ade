//! The snapshot codec: the digest as bytes, for storage and exchange.
//!
//! A snapshot is four bytes that name the format and its version, then five
//! words of eight bytes each (compression parameter, total weight, smallest
//! sample, largest sample, number of centroids), then two words for each
//! centroid (mean, weight). Every word is little-endian; samples and means
//! are in two's complement. The encoding of a digest is unique, so decoding
//! is the inverse of encoding.

use vstd::prelude::*;
use vstd::bytes::{
    lemma_auto_spec_u64_to_from_le_bytes, spec_u64_from_le_bytes, spec_u64_to_le_bytes,
    u64_from_le_bytes, u64_to_le_bytes,
};
use vstd::slice::slice_subrange;
use crate::centroid::Centroid;
use crate::model::DigestView;

verus! {

/// The fields of a digest as plain values: what a snapshot holds, and what
/// a digest can be taken apart into and put together from.
#[derive(Debug)]
pub struct DigestParts {
    pub compression: u64,
    pub total_weight: u64,
    pub min: i64,
    pub max: i64,
    pub centroids: Vec<Centroid>,
}

impl View for DigestParts {
    type V = DigestView;

    open spec fn view(&self) -> DigestView {
        DigestView {
            compression: self.compression as nat,
            total_weight: self.total_weight as nat,
            min: self.min as int,
            max: self.max as int,
            centroids: self.centroids@,
        }
    }
}

/// The number of bytes before the first centroid.
pub const HEADER_LEN: usize = 44;

/// The number of bytes of one centroid.
pub const CENTROID_LEN: usize = 16;

/// The first four bytes of every snapshot: the letters `TDG` and the
/// version of the format, 1.
pub open spec fn magic() -> Seq<u8> {
    seq![0x54u8, 0x44u8, 0x47u8, 0x01u8]
}

/// The eight bytes of an unsigned word.
pub open spec fn word(x: u64) -> Seq<u8> {
    spec_u64_to_le_bytes(x)
}

/// The eight bytes of a signed word.
pub open spec fn signed_word(x: i64) -> Seq<u8> {
    spec_u64_to_le_bytes(x as u64)
}

/// The unsigned word that starts at byte `at`.
pub open spec fn read_word(bytes: Seq<u8>, at: int) -> u64 {
    spec_u64_from_le_bytes(bytes.subrange(at, at + 8))
}

/// The signed word that starts at byte `at`.
pub open spec fn read_signed(bytes: Seq<u8>, at: int) -> i64 {
    read_word(bytes, at) as i64
}

/// The bytes of the centroids, one after the other.
pub open spec fn encode_centroids(cs: Seq<Centroid>) -> Seq<u8>
    decreases cs.len(),
{
    if cs.len() == 0 {
        Seq::empty()
    } else {
        encode_centroids(cs.drop_last()) + signed_word(cs.last().mean) + word(cs.last().weight)
    }
}

/// The bytes before the first centroid.
pub open spec fn encode_header(d: DigestView) -> Seq<u8> {
    magic() + word(d.compression as u64) + word(d.total_weight as u64) + signed_word(
        d.min as i64,
    ) + signed_word(d.max as i64) + word(d.centroids.len() as u64)
}

/// The snapshot of a digest.
pub open spec fn encode_snapshot(d: DigestView) -> Seq<u8> {
    encode_header(d) + encode_centroids(d.centroids)
}

/// The digest that a snapshot holds: the one well-formed digest that
/// encodes to `bytes`, if there is one.
pub open spec fn decode_snapshot(bytes: Seq<u8>) -> Option<DigestView> {
    if exists|d: DigestView| d.wf() && encode_snapshot(d) == bytes {
        Some(choose|d: DigestView| d.wf() && encode_snapshot(d) == bytes)
    } else {
        None
    }
}

/// Every field of the digest fits the word that the snapshot has for it.
pub open spec fn representable(d: DigestView) -> bool {
    &&& d.compression <= u64::MAX
    &&& d.total_weight <= u64::MAX
    &&& i64::MIN <= d.min <= i64::MAX
    &&& i64::MIN <= d.max <= i64::MAX
    &&& d.centroids.len() <= u64::MAX
}

/// A signed word is read back as it was written.
pub proof fn lemma_signed_word(x: i64)
    ensures
        (x as u64) as i64 == x,
{
    assert((x as u64) as i64 == x) by (bit_vector);
}

/// An unsigned word that is read as signed is written back as it was.
pub proof fn lemma_unsigned_word(x: u64)
    ensures
        (x as i64) as u64 == x,
{
    assert((x as i64) as u64 == x) by (bit_vector);
}

/// Where the words of the centroids lie in their bytes.
pub proof fn lemma_centroid_layout(cs: Seq<Centroid>)
    ensures
        encode_centroids(cs).len() == CENTROID_LEN * cs.len(),
        forall|i: int|
            0 <= i < cs.len() ==> {
                &&& #[trigger] read_signed(encode_centroids(cs), CENTROID_LEN * i) == cs[i].mean
                &&& read_word(encode_centroids(cs), CENTROID_LEN * i + 8) == cs[i].weight
            },
    decreases cs.len(),
{
    lemma_auto_spec_u64_to_from_le_bytes();
    if cs.len() > 0 {
        let rest = cs.drop_last();
        let all = encode_centroids(cs);
        let front = encode_centroids(rest);
        lemma_centroid_layout(rest);
        assert forall|i: int| 0 <= i < cs.len() implies {
            &&& #[trigger] read_signed(all, CENTROID_LEN * i) == cs[i].mean
            &&& read_word(all, CENTROID_LEN * i + 8) == cs[i].weight
        } by {
            let at = CENTROID_LEN * i;
            if i < rest.len() {
                assert(read_signed(front, CENTROID_LEN * i) == rest[i].mean);
                assert(all.subrange(at, at + 8) =~= front.subrange(at, at + 8));
                assert(all.subrange(at + 8, at + 16) =~= front.subrange(at + 8, at + 16));
            } else {
                assert(all.subrange(at, at + 8) =~= signed_word(cs.last().mean));
                assert(all.subrange(at + 8, at + 16) =~= word(cs.last().weight));
                lemma_signed_word(cs.last().mean);
            }
        }
    }
}

/// Where the words of a snapshot lie in its bytes.
pub proof fn lemma_snapshot_layout(d: DigestView)
    requires
        representable(d),
    ensures
        ({
            let bytes = encode_snapshot(d);
            &&& bytes.len() == HEADER_LEN + CENTROID_LEN * d.centroids.len()
            &&& bytes.subrange(0, 4) == magic()
            &&& read_word(bytes, 4) == d.compression
            &&& read_word(bytes, 12) == d.total_weight
            &&& read_signed(bytes, 20) == d.min
            &&& read_signed(bytes, 28) == d.max
            &&& read_word(bytes, 36) == d.centroids.len()
            &&& bytes.subrange(HEADER_LEN as int, bytes.len() as int) == encode_centroids(
                d.centroids,
            )
            &&& forall|i: int|
                0 <= i < d.centroids.len() ==> {
                    &&& #[trigger] read_signed(bytes, HEADER_LEN + CENTROID_LEN * i)
                        == d.centroids[i].mean
                    &&& read_word(bytes, HEADER_LEN + CENTROID_LEN * i + 8)
                        == d.centroids[i].weight
                }
        }),
{
    lemma_auto_spec_u64_to_from_le_bytes();
    let bytes = encode_snapshot(d);
    let body = encode_centroids(d.centroids);
    lemma_centroid_layout(d.centroids);
    lemma_signed_word(d.min as i64);
    lemma_signed_word(d.max as i64);
    assert(bytes.subrange(0, 4) =~= magic());
    assert(bytes.subrange(4, 12) =~= word(d.compression as u64));
    assert(bytes.subrange(12, 20) =~= word(d.total_weight as u64));
    assert(bytes.subrange(20, 28) =~= signed_word(d.min as i64));
    assert(bytes.subrange(28, 36) =~= signed_word(d.max as i64));
    assert(bytes.subrange(36, 44) =~= word(d.centroids.len() as u64));
    assert(bytes.subrange(HEADER_LEN as int, bytes.len() as int) =~= body);
    assert forall|i: int| 0 <= i < d.centroids.len() implies {
        &&& #[trigger] read_signed(bytes, HEADER_LEN + CENTROID_LEN * i) == d.centroids[i].mean
        &&& read_word(bytes, HEADER_LEN + CENTROID_LEN * i + 8) == d.centroids[i].weight
    } by {
        let at = CENTROID_LEN * i;
        assert(read_signed(body, CENTROID_LEN * i) == d.centroids[i].mean);
        assert(bytes.subrange(HEADER_LEN + at, HEADER_LEN + at + 8) =~= body.subrange(at, at + 8));
        assert(bytes.subrange(HEADER_LEN + at + 8, HEADER_LEN + at + 16) =~= body.subrange(
            at + 8,
            at + 16,
        ));
    }
}

/// No two digests have the same snapshot.
pub proof fn lemma_snapshot_unique(a: DigestView, b: DigestView)
    requires
        representable(a),
        representable(b),
        encode_snapshot(a) == encode_snapshot(b),
    ensures
        a == b,
{
    lemma_snapshot_layout(a);
    lemma_snapshot_layout(b);
    assert(a.centroids.len() == b.centroids.len());
    assert forall|i: int| 0 <= i < a.centroids.len() implies a.centroids[i] == b.centroids[i] by {
        let bytes = encode_snapshot(a);
        assert(read_signed(bytes, HEADER_LEN + CENTROID_LEN * i) == a.centroids[i].mean);
        assert(read_signed(bytes, HEADER_LEN + CENTROID_LEN * i) == b.centroids[i].mean);
    }
    assert(a.centroids =~= b.centroids);
}

/// Appends an unsigned word.
fn push_word(out: &mut Vec<u8>, x: u64)
    ensures
        final(out)@ == old(out)@ + word(x),
{
    let mut bytes: Vec<u8> = u64_to_le_bytes(x);
    out.append(&mut bytes);
}

/// Appends a signed word.
fn push_signed(out: &mut Vec<u8>, x: i64)
    ensures
        final(out)@ == old(out)@ + signed_word(x),
{
    push_word(out, x as u64);
}

/// Reads the unsigned word that starts at byte `at`.
fn word_at(bytes: &[u8], at: usize) -> (x: u64)
    requires
        at + 8 <= bytes.len(),
    ensures
        x == read_word(bytes@, at as int),
        word(x) == bytes@.subrange(at as int, at + 8),
{
    proof {
        lemma_auto_spec_u64_to_from_le_bytes();
    }
    u64_from_le_bytes(slice_subrange(bytes, at, at + 8))
}

/// Reads the signed word that starts at byte `at`.
fn signed_at(bytes: &[u8], at: usize) -> (x: i64)
    requires
        at + 8 <= bytes.len(),
    ensures
        x == read_signed(bytes@, at as int),
        signed_word(x) == bytes@.subrange(at as int, at + 8),
{
    let raw: u64 = word_at(bytes, at);
    proof {
        lemma_unsigned_word(raw);
    }
    raw as i64
}

/// Writes the snapshot of the digest with the given fields.
pub fn encode_parts(parts: &DigestParts) -> (bytes: Vec<u8>)
    ensures
        bytes@ == encode_snapshot(parts@),
{
    let mut out: Vec<u8> = Vec::new();
    out.push(0x54u8);
    out.push(0x44u8);
    out.push(0x47u8);
    out.push(0x01u8);
    proof {
        assert(out@ =~= magic());
    }
    push_word(&mut out, parts.compression);
    push_word(&mut out, parts.total_weight);
    push_signed(&mut out, parts.min);
    push_signed(&mut out, parts.max);
    push_word(&mut out, parts.centroids.len() as u64);
    proof {
        assert(out@ =~= encode_header(parts@) + encode_centroids(parts.centroids@.take(0)));
    }
    let mut i: usize = 0;
    while i < parts.centroids.len()
        invariant
            i <= parts.centroids.len(),
            out@ == encode_header(parts@) + encode_centroids(parts.centroids@.take(i as int)),
        decreases parts.centroids.len() - i,
    {
        let c: Centroid = parts.centroids[i];
        push_signed(&mut out, c.mean);
        push_word(&mut out, c.weight);
        proof {
            let next = parts.centroids@.take(i + 1);
            assert(next.drop_last() =~= parts.centroids@.take(i as int));
            assert(out@ =~= encode_header(parts@) + encode_centroids(next));
        }
        i += 1;
    }
    proof {
        assert(parts.centroids@.take(parts.centroids.len() as int) =~= parts.centroids@);
    }
    out
}

/// Takes a snapshot apart into the fields it holds, without judging them.
/// Fails if the bytes are not framed as a snapshot: too short, another
/// format or version, or a length that does not fit the number of centroids.
pub fn parse_frame(bytes: &[u8]) -> (res: Option<DigestParts>)
    ensures
        res matches Some(parts) ==> encode_snapshot(parts@) == bytes@,
        res is None ==> forall|d: DigestView| representable(d) ==> encode_snapshot(d) != bytes@,
{
    if bytes.len() < HEADER_LEN {
        proof {
            assert forall|d: DigestView| representable(d) implies encode_snapshot(d)
                != bytes@ by {
                lemma_snapshot_layout(d);
            }
        }
        return None;
    }
    if bytes[0] != 0x54u8 || bytes[1] != 0x44u8 || bytes[2] != 0x47u8 || bytes[3] != 0x01u8 {
        proof {
            assert forall|d: DigestView| representable(d) implies encode_snapshot(d)
                != bytes@ by {
                lemma_snapshot_layout(d);
                if encode_snapshot(d) == bytes@ {
                    assert(bytes@.subrange(0, 4)[0] == bytes@[0]);
                    assert(bytes@.subrange(0, 4)[1] == bytes@[1]);
                    assert(bytes@.subrange(0, 4)[2] == bytes@[2]);
                    assert(bytes@.subrange(0, 4)[3] == bytes@[3]);
                }
            }
        }
        return None;
    }
    let compression: u64 = word_at(bytes, 4);
    let total_weight: u64 = word_at(bytes, 12);
    let min: i64 = signed_at(bytes, 20);
    let max: i64 = signed_at(bytes, 28);
    let count: u64 = word_at(bytes, 36);
    let body: usize = bytes.len() - HEADER_LEN;
    if body % CENTROID_LEN != 0 || (body / CENTROID_LEN) as u64 != count {
        proof {
            assert forall|d: DigestView| representable(d) implies encode_snapshot(d)
                != bytes@ by {
                lemma_snapshot_layout(d);
            }
        }
        return None;
    }
    let mut centroids: Vec<Centroid> = Vec::new();
    let mut i: usize = 0;
    while i < body / CENTROID_LEN
        invariant
            bytes.len() == HEADER_LEN + body,
            body % CENTROID_LEN == 0,
            i <= body / CENTROID_LEN,
            centroids@.len() == i,
            encode_centroids(centroids@) == bytes@.subrange(
                HEADER_LEN as int,
                HEADER_LEN + CENTROID_LEN * i,
            ),
        decreases body / CENTROID_LEN - i,
    {
        assert(CENTROID_LEN * (i + 1) <= body) by {
            assert(i + 1 <= body / 16);
            assert(16 * (body / 16) <= body);
        }
        let at: usize = HEADER_LEN + CENTROID_LEN * i;
        let mean: i64 = signed_at(bytes, at);
        let weight: u64 = word_at(bytes, at + 8);
        let ghost before = centroids@;
        centroids.push(Centroid { mean, weight });
        proof {
            assert(centroids@.drop_last() =~= before);
            assert(encode_centroids(centroids@) =~= bytes@.subrange(
                HEADER_LEN as int,
                HEADER_LEN + CENTROID_LEN * (i + 1),
            ));
        }
        i += 1;
    }
    let parts = DigestParts { compression, total_weight, min, max, centroids };
    proof {
        assert(encode_header(parts@) =~= bytes@.subrange(0, HEADER_LEN as int));
        assert(encode_snapshot(parts@) =~= bytes@);
    }
    Some(parts)
}

} // verus!
