//! Framing of a transaction batch into bytes, and spreading of those bytes
//! over redundant chunks.
//!
//! The frame is length-prefixed: each transaction is preceded by its length
//! as 8 little-endian bytes. Parsing a frame returns exactly the framed
//! batch.
//!
//! The spreading is a repetition code: every chunk carries the full framed
//! batch, so any single chunk — in particular any subset of recovery-threshold
//! size — reconstructs it. It stands in for a more space-efficient erasure
//! code behind the same contract: `n` chunks out, any subset of at least
//! `recovery_threshold(n)` chunks sufficient to decode.

use vstd::prelude::*;
use vstd::bytes::lemma_auto_spec_u64_to_from_le_bytes;
use vstd::bytes::spec_u64_from_le_bytes;
use vstd::bytes::spec_u64_to_le_bytes;
use vstd::bytes::u64_from_le_bytes;
use vstd::bytes::u64_to_le_bytes;
use vstd::slice::slice_subrange;
use vstd::slice::slice_to_vec;
use crate::primitives::append_bytes;
use crate::primitives::clone_bytes;

verus! {

/// The framed bytes of a transaction batch: each transaction preceded by its
/// length as 8 little-endian bytes, in batch order.
pub open spec fn frame_of(txs: Seq<Seq<u8>>) -> Seq<u8>
    decreases txs.len(),
{
    if txs.len() == 0 {
        Seq::empty()
    } else {
        spec_u64_to_le_bytes(txs[0].len() as u64) + txs[0] + frame_of(txs.drop_first())
    }
}

/// Framing one more transaction appends its length prefix and its bytes.
pub proof fn lemma_frame_snoc(txs: Seq<Seq<u8>>, t: Seq<u8>)
    ensures
        frame_of(txs.push(t)) == frame_of(txs) + spec_u64_to_le_bytes(t.len() as u64) + t,
    decreases txs.len(),
{
    reveal_with_fuel(frame_of, 3);
    if txs.len() == 0 {
        assert(txs.push(t).drop_first() =~= txs);
        assert(frame_of(txs.push(t)) =~= frame_of(txs) + spec_u64_to_le_bytes(t.len() as u64)
            + t);
    } else {
        assert(txs.push(t).drop_first() =~= txs.drop_first().push(t));
        lemma_frame_snoc(txs.drop_first(), t);
        assert(frame_of(txs.push(t)) =~= frame_of(txs) + spec_u64_to_le_bytes(t.len() as u64)
            + t);
    }
}

/// The batch parsed back out of framed bytes: `None` when the bytes are not a
/// whole sequence of length-prefixed transactions.
pub open spec fn unframe_of(bytes: Seq<u8>) -> Option<Seq<Seq<u8>>>
    decreases bytes.len(),
{
    if bytes.len() == 0 {
        Some(Seq::empty())
    } else if bytes.len() < 8 {
        None
    } else {
        let l = spec_u64_from_le_bytes(bytes.subrange(0, 8)) as int;
        if bytes.len() < 8 + l {
            None
        } else {
            match unframe_of(bytes.skip(8 + l)) {
                Some(rest) => Some(seq![bytes.subrange(8, 8 + l)] + rest),
                None => None,
            }
        }
    }
}

/// Framing then parsing returns the original batch.
pub proof fn lemma_frame_round_trip(txs: Seq<Seq<u8>>)
    requires
        forall|k: int| 0 <= k < txs.len() ==> (#[trigger] txs[k]).len() <= u64::MAX,
    ensures
        unframe_of(frame_of(txs)) == Some(txs),
    decreases txs.len(),
{
    lemma_auto_spec_u64_to_from_le_bytes();
    if txs.len() == 0 {
    } else {
        let t = txs[0];
        let l = t.len() as int;
        let b = frame_of(txs);
        assert(b.subrange(0, 8) =~= spec_u64_to_le_bytes(t.len() as u64));
        assert(spec_u64_from_le_bytes(b.subrange(0, 8)) == t.len() as u64);
        assert(b.subrange(8, 8 + l) =~= t);
        assert(b.skip(8 + l) =~= frame_of(txs.drop_first()));
        assert(forall|k: int|
            0 <= k < txs.drop_first().len() ==> (#[trigger] txs.drop_first()[k]).len()
                <= u64::MAX);
        lemma_frame_round_trip(txs.drop_first());
        assert(seq![t] + txs.drop_first() =~= txs);
    }
}

/// Frames a transaction batch into bytes.
pub fn frame(txs: &Vec<Vec<u8>>) -> (r: Vec<u8>)
    ensures
        r@ == frame_of(txs.deep_view()),
{
    let mut out: Vec<u8> = Vec::new();
    let mut i: usize = 0;
    while i < txs.len()
        invariant
            i <= txs@.len(),
            out@ == frame_of(txs.deep_view().take(i as int)),
        decreases txs@.len() - i,
    {
        let t = &txs[i];
        let lb = u64_to_le_bytes(t.len() as u64);
        proof {
            lemma_frame_snoc(txs.deep_view().take(i as int), txs.deep_view()[i as int]);
            assert(txs.deep_view().take(i + 1 as int) =~= txs.deep_view().take(i as int).push(
                txs.deep_view()[i as int],
            ));
            assert(t.deep_view() =~= t@);
        }
        append_bytes(&mut out, lb.as_slice());
        append_bytes(&mut out, t.as_slice());
        i = i + 1;
    }
    proof {
        assert(txs.deep_view().take(txs.deep_view().len() as int) =~= txs.deep_view());
    }
    out
}

/// Parses framed bytes back into a transaction batch; `None` exactly when the
/// bytes are not a whole frame.
pub fn unframe(bytes: &Vec<u8>) -> (r: Option<Vec<Vec<u8>>>)
    ensures
        match r {
            Some(txs) => unframe_of(bytes@) == Some(txs.deep_view()),
            None => unframe_of(bytes@) is None,
        },
{
    let mut acc: Vec<Vec<u8>> = Vec::new();
    let mut pos: usize = 0;
    proof {
        assert(bytes@.skip(0) =~= bytes@);
        assert(acc.deep_view() =~= Seq::<Seq<u8>>::empty());
        assert(forall|rest: Seq<Seq<u8>>| Seq::<Seq<u8>>::empty() + rest =~= rest);
    }
    while pos < bytes.len()
        invariant
            pos <= bytes@.len(),
            unframe_of(bytes@) == (match unframe_of(bytes@.skip(pos as int)) {
                Some(rest) => Some(acc.deep_view() + rest),
                None => None::<Seq<Seq<u8>>>,
            }),
        decreases bytes@.len() - pos,
    {
        let ghost tail = bytes@.skip(pos as int);
        if bytes.len() - pos < 8 {
            assert(unframe_of(tail) is None);
            return None;
        }
        let lb = slice_subrange(bytes.as_slice(), pos, pos + 8);
        let l64 = u64_from_le_bytes(lb);
        proof {
            assert(tail.subrange(0, 8) =~= bytes@.subrange(pos as int, pos + 8 as int));
        }
        let rem = bytes.len() - pos - 8;
        if l64 > rem as u64 {
            assert(unframe_of(tail) is None);
            return None;
        }
        let l = l64 as usize;
        let t = slice_to_vec(slice_subrange(bytes.as_slice(), pos + 8, pos + 8 + l));
        let ghost tv = t@;
        let ghost prev = acc.deep_view();
        proof {
            assert(tail.subrange(8, 8 + l as int) =~= bytes@.subrange(
                pos + 8 as int,
                pos + 8 + l as int,
            ));
            assert(tail.skip(8 + l as int) =~= bytes@.skip(pos + 8 + l as int));
            assert(forall|rest: Seq<Seq<u8>>|
                prev + (seq![tv] + rest) =~= (prev.push(tv)) + rest);
        }
        acc.push(t);
        proof {
            assert(acc.deep_view() =~~= prev.push(tv));
        }
        pos = pos + 8 + l;
    }
    proof {
        assert(bytes@.skip(pos as int) =~= Seq::<u8>::empty());
        assert(unframe_of(bytes@.skip(pos as int)) == Some(Seq::<Seq<u8>>::empty()));
        assert(acc.deep_view() + Seq::<Seq<u8>>::empty() =~= acc.deep_view());
    }
    Some(acc)
}

/// The number of chunks sufficient to reconstruct a batch spread over `n`
/// validators: f + 1, where f = (n - 1) / 3 is the tolerated fault count.
pub open spec fn recovery_threshold_spec(n: int) -> int {
    (n - 1) / 3 + 1
}

pub fn recovery_threshold(n: usize) -> (r: usize)
    requires
        n >= 1,
    ensures
        r as int == recovery_threshold_spec(n as int),
{
    (n - 1) / 3 + 1
}

/// Spreads the framed batch over `n` chunks, each carrying the full data.
pub fn encode(data: &Vec<u8>, n: usize) -> (r: Vec<Vec<u8>>)
    ensures
        r@.len() == n,
        forall|k: int| 0 <= k < n ==> r.deep_view()[k] == data@,
{
    let mut out: Vec<Vec<u8>> = Vec::new();
    let mut i: usize = 0;
    while i < n
        invariant
            i <= n,
            out@.len() == i,
            forall|k: int| 0 <= k < i ==> (#[trigger] out@[k])@ == data@,
        decreases n - i,
    {
        out.push(clone_bytes(data));
        i = i + 1;
    }
    proof {
        assert forall|k: int| 0 <= k < n implies out.deep_view()[k] == data@ by {
            assert(out@[k].deep_view() =~= out@[k]@);
        };
    }
    out
}

/// The bytes a set of chunks reconstructs: those of its first chunk, which
/// the encoder's contract says carries the full data.
pub open spec fn decode_of(chunks: Seq<Seq<u8>>) -> Option<Seq<u8>> {
    if chunks.len() == 0 {
        None
    } else {
        Some(chunks[0])
    }
}

/// Reconstructs the framed batch from the chunks that arrived.
pub fn decode(chunks: &Vec<Vec<u8>>) -> (r: Option<Vec<u8>>)
    ensures
        match r {
            Some(d) => decode_of(chunks.deep_view()) == Some(d@),
            None => chunks@.len() == 0,
        },
{
    if chunks.len() == 0 {
        return None;
    }
    Some(clone_bytes(&chunks[0]))
}

/// Any subset of the encoded chunks of at least the recovery threshold
/// reconstructs the data.
pub proof fn lemma_subset_recovers(data: Seq<u8>, n: int, subset: Seq<Seq<u8>>)
    requires
        n >= 1,
        subset.len() >= recovery_threshold_spec(n),
        forall|k: int| 0 <= k < subset.len() ==> #[trigger] subset[k] == data,
    ensures
        decode_of(subset) == Some(data),
{
    assert(recovery_threshold_spec(n) >= 1);
    assert(subset[0] == data);
}

} // verus!
