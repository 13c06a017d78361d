//! The byte format in which a project keeps its list of masks: a two-byte
//! big-endian block size, then every mask cut or zero-padded to that size.
use vstd::prelude::*;

use crate::bitmask::{bytes_for_bits, fit_bytes, BitMask};

verus! {

broadcast use vstd::seq::Seq::group_seq_flatten;

/// The byte contents of each mask.
pub open spec fn views(ms: Seq<BitMask>) -> Seq<Seq<u8>> {
    ms.map_values(|m: BitMask| m@)
}

/// The block size written for a list of `count` masks: one bit per mask, in bytes,
/// the count taken modulo 2^16.
pub open spec fn block_size(count: nat) -> int {
    bytes_for_bits((count % 65536) as int)
}

/// Every mask cut or zero-padded to `size` bytes.
pub open spec fn fitted(ms: Seq<Seq<u8>>, size: int) -> Seq<Seq<u8>> {
    ms.map_values(|m: Seq<u8>| fit_bytes(m, size))
}

/// The bytes written for a list of masks.
pub open spec fn encoded(ms: Seq<Seq<u8>>) -> Seq<u8> {
    if ms.len() == 0 {
        seq![0u8]
    } else {
        let size = block_size(ms.len());
        seq![(size / 256) as u8, (size % 256) as u8] + fitted(ms, size).flatten()
    }
}

/// `body` cut into blocks of `size` bytes; a short last block is zero-padded.
pub open spec fn chunks(body: Seq<u8>, size: int) -> Seq<Seq<u8>>
    decreases body.len(),
{
    if size <= 0 || body.len() == 0 {
        seq![]
    } else if body.len() <= size {
        seq![fit_bytes(body, size)]
    } else {
        seq![body.take(size)] + chunks(body.skip(size), size)
    }
}

/// The masks read back from a file's bytes.
pub open spec fn decoded(bytes: Seq<u8>) -> Seq<Seq<u8>> {
    if bytes.len() <= 2 {
        seq![]
    } else {
        chunks(bytes.skip(2), bytes[0] as int * 256 + bytes[1] as int)
    }
}

/// The bytes that store `masks`.
pub fn masks_to_bytes(masks: &[BitMask]) -> (bytes: Vec<u8>)
    requires
        forall|i: int| 0 <= i < masks@.len() ==> (#[trigger] masks@[i])@.len() <= u16::MAX,
    ensures
        bytes@ == encoded(views(masks@)),
{
    let mut out: Vec<u8> = Vec::new();
    if masks.len() == 0 {
        out.push(0u8);
        assert(out@ =~= encoded(views(masks@)));
        return out;
    }
    let count: u16 = (masks.len() % 65536) as u16;
    assert(count >> 3 <= 8191) by (bit_vector);
    let size: u16 = (count >> 3) + if count & 0b111 != 0 {
        1
    } else {
        0
    };
    assert(size == (count + 7) / 8) by (bit_vector)
        requires
            size == (count >> 3) + if count & 0b111 != 0 {
                1u16
            } else {
                0u16
            },
    ;
    out.push((size / 256) as u8);
    out.push((size % 256) as u8);
    let ghost header = out@;
    let ghost all = fitted(views(masks@), size as int);
    let mut i: usize = 0;
    while i < masks.len()
        invariant
            i <= masks@.len(),
            all == fitted(views(masks@), size as int),
            out@ == header + all.take(i as int).flatten(),
        decreases masks@.len() - i,
    {
        let v = masks[i].ref_vec();
        let ghost before = out@;
        let mut j: u16 = 0;
        while j < size
            invariant
                j <= size,
                i < masks@.len(),
                v@ == masks@[i as int]@,
                all == fitted(views(masks@), size as int),
                out@ == before + fit_bytes(v@, size as int).take(j as int),
            decreases size - j,
        {
            let b: u8 = if (j as usize) < v.len() {
                v[j as usize]
            } else {
                0u8
            };
            out.push(b);
            j = j + 1;
            assert(out@ =~= before + fit_bytes(v@, size as int).take(j as int));
        }
        proof {
            assert(fit_bytes(v@, size as int).take(size as int) =~= fit_bytes(v@, size as int));
            assert(all.take(i + 1) =~= all.take(i as int).push(all[i as int]));
            assert(all[i as int] == fit_bytes(v@, size as int));
        }
        i = i + 1;
    }
    assert(all.take(i as int) =~= all);
    assert(out@ =~= encoded(views(masks@)));
    out
}

/// The masks stored in `bytes`.
pub fn masks_from_bytes(bytes: &[u8]) -> (masks: Vec<BitMask>)
    ensures
        views(masks@) == decoded(bytes@),
{
    let len = bytes.len();
    let mut out: Vec<BitMask> = Vec::new();
    if len <= 2 {
        assert(views(out@) =~= decoded(bytes@));
        return out;
    }
    let size: usize = (bytes[0] as usize) * 256 + bytes[1] as usize;
    if size == 0 {
        assert(views(out@) =~= decoded(bytes@));
        return out;
    }
    let ghost body = bytes@.skip(2);
    let mut pos: usize = 2;
    while pos < len
        invariant
            2 <= pos <= len,
            len == bytes@.len(),
            size > 0,
            size == bytes@[0] as int * 256 + bytes@[1] as int,
            body == bytes@.skip(2),
            views(out@) + chunks(bytes@.skip(pos as int), size as int) == chunks(body, size as int),
        decreases len - pos,
    {
        let end: usize = if len - pos <= size {
            len
        } else {
            pos + size
        };
        let mut v: Vec<u8> = Vec::new();
        let mut j: usize = pos;
        while j < end
            invariant
                pos <= j <= end,
                end <= len,
                len == bytes@.len(),
                v@ == bytes@.subrange(pos as int, j as int),
            decreases end - j,
        {
            v.push(bytes[j]);
            j = j + 1;
            assert(v@ =~= bytes@.subrange(pos as int, j as int));
        }
        let mut k: usize = end - pos;
        while k < size
            invariant
                end - pos <= k <= size,
                v@ == bytes@.subrange(pos as int, end as int) + crate::bitmask::zeros(
                    k - (end - pos),
                ),
            decreases size - k,
        {
            v.push(0u8);
            k = k + 1;
            assert(v@ =~= bytes@.subrange(pos as int, end as int) + crate::bitmask::zeros(
                k - (end - pos),
            ));
        }
        let ghost rest = bytes@.skip(pos as int);
        let m = BitMask::from(v);
        proof {
            if rest.len() <= size {
                assert(v@ =~= fit_bytes(rest, size as int));
                assert(bytes@.skip(end as int).len() == 0);
                assert(chunks(bytes@.skip(end as int), size as int) =~= seq![]);
            } else {
                assert(v@ =~= rest.take(size as int));
                assert(rest.skip(size as int) =~= bytes@.skip(end as int));
            }
            assert(views(out@.push(m)) =~= views(out@).push(m@));
            assert(views(out@.push(m)) + chunks(bytes@.skip(end as int), size as int) =~= views(
                out@,
            ) + chunks(rest, size as int));
        }
        out.push(m);
        pos = end;
    }
    assert(bytes@.skip(pos as int) =~= seq![]);
    assert(views(out@) + chunks(bytes@.skip(pos as int), size as int) =~= views(out@));
    out
}

/// Reading back what was written gives every mask cut or zero-padded to the block size.
pub proof fn law_masks_round_trip(ms: Seq<Seq<u8>>)
    requires
        ms.len() < 65536,
    ensures
        decoded(encoded(ms)) == fitted(ms, block_size(ms.len())),
{
    if ms.len() == 0 {
        assert(decoded(encoded(ms)) =~= fitted(ms, block_size(ms.len())));
    } else {
        let size = block_size(ms.len());
        let e = encoded(ms);
        assert(e.skip(2) =~= fitted(ms, size).flatten());
        lemma_chunks_flatten(fitted(ms, size), size);
    }
}

/// A matrix whose rows each have one bit per row, as a project's matrices
/// have, reads back exactly as it was written.
pub proof fn law_matrix_round_trip(ms: Seq<Seq<u8>>)
    requires
        ms.len() < 65536,
        forall|i: int| 0 <= i < ms.len() ==> (#[trigger] ms[i]).len() == bytes_for_bits(ms.len() as int),
    ensures
        decoded(encoded(ms)) == ms,
{
    law_masks_round_trip(ms);
    let size = block_size(ms.len());
    assert forall|i: int| 0 <= i < ms.len() implies #[trigger] fitted(ms, size)[i] == ms[i] by {
        assert(fit_bytes(ms[i], size) =~= ms[i]);
    }
    assert(fitted(ms, size) =~= ms);
}

/// Reading back the bytes written for at most 2^16 - 1 masks gives every mask
/// cut or zero-padded to one byte per eight masks (rounded up); none for none.
pub proof fn law_masks_file_round_trip(ms: Seq<Seq<u8>>)
    requires
        ms.len() <= u16::MAX,
    ensures
        decoded(encoded(ms)) == ms.map_values(|m: Seq<u8>| fit_bytes(m, (ms.len() as int + 7) / 8)),
{
    law_masks_round_trip(ms);
    assert(block_size(ms.len()) == (ms.len() as int + 7) / 8);
    assert(fitted(ms, block_size(ms.len())) =~= ms.map_values(
        |m: Seq<u8>| fit_bytes(m, (ms.len() as int + 7) / 8),
    ));
}

/// Cutting the concatenation of blocks of `size` bytes gives the blocks back.
proof fn lemma_chunks_flatten(blocks: Seq<Seq<u8>>, size: int)
    requires
        size > 0,
        forall|i: int| 0 <= i < blocks.len() ==> (#[trigger] blocks[i]).len() == size,
    ensures
        chunks(blocks.flatten(), size) == blocks,
    decreases blocks.len(),
{
    if blocks.len() == 0 {
        assert(chunks(blocks.flatten(), size) =~= blocks);
    } else {
        let first = blocks.first();
        let rest = blocks.drop_first();
        assert(blocks.flatten() == first + rest.flatten());
        lemma_chunks_flatten(rest, size);
        if rest.len() == 0 {
            assert(rest.flatten() =~= seq![]);
            assert(first + rest.flatten() =~= first);
            assert(fit_bytes(first, size) =~= first);
            assert(chunks(blocks.flatten(), size) =~= blocks);
        } else {
            lemma_flatten_len(rest, size);
            assert((first + rest.flatten()).take(size) =~= first);
            assert((first + rest.flatten()).skip(size) =~= rest.flatten());
            assert(chunks(blocks.flatten(), size) =~= seq![first] + rest);
            assert(seq![first] + rest =~= blocks);
        }
    }
}

proof fn lemma_flatten_len(blocks: Seq<Seq<u8>>, size: int)
    requires
        size > 0,
        blocks.len() > 0,
        forall|i: int| 0 <= i < blocks.len() ==> (#[trigger] blocks[i]).len() == size,
    ensures
        blocks.flatten().len() >= size,
    decreases blocks.len(),
{
    assert(blocks.flatten() == blocks.first() + blocks.drop_first().flatten());
}

} // verus!
