//! Laying a decoded container out again with its records back to back.
use vstd::prelude::*;

use crate::format::{
    concat, entry_bytes, lemma_sectors_before_bound, packed_image, packed_offset, packed_table,
    sectors_before, SLOT_COUNT,
};
use crate::parser::{sectors_bytes, Chunks};

verus! {

/// Appends one sector to `out`.
fn append_sector(out: &mut Vec<u8>, block: &[u8; 4096])
    ensures
        final(out)@ == old(out)@ + block@,
{
    let ghost start = out@;
    let mut j: usize = 0;
    while j < 4096
        invariant
            j <= 4096,
            block@.len() == 4096,
            out@ == start + block@.subrange(0, j as int),
        decreases 4096 - j,
    {
        assert(block@.subrange(0, j + 1) =~= block@.subrange(0, j as int).push(block@[j as int]));
        out.push(block[j]);
        j = j + 1;
    }
    assert(block@.subrange(0, 4096) =~= block@);
}

/// Appends sectors to `out`, in order.
fn append_sectors(out: &mut Vec<u8>, data: &Vec<[u8; 4096]>)
    ensures
        final(out)@ == old(out)@ + sectors_bytes(data@),
{
    let ghost start = out@;
    let mut k: usize = 0;
    while k < data.len()
        invariant
            k <= data@.len(),
            out@ == start + sectors_bytes(data@.take(k as int)),
        decreases data@.len() - k,
    {
        assert(data@.take(k + 1).drop_last() =~= data@.take(k as int));
        append_sector(out, &data[k]);
        assert(out@ =~= start + sectors_bytes(data@.take(k + 1)));
        k = k + 1;
    }
    assert(data@.take(data@.len() as int) =~= data@);
}

/// Serializes `chunks` with every record moved up against the one before:
/// a new table whose populated slots start at sector 2 and follow each other
/// without gaps, in table order (empty slots get offset 0), then the
/// timestamp block unchanged, then the payloads in the same order. The
/// offsets stored in `chunks` play no part.
pub fn write_rca(chunks: Chunks) -> (r: Vec<u8>)
    requires
        chunks.wf(),
    ensures
        r@ == packed_image(chunks.sizes(), chunks.payloads(), chunks.timestamps@),
{
    let ghost sizes = chunks.sizes();
    let ghost payloads = chunks.payloads();
    let mut header: Vec<u8> = Vec::with_capacity(4096);
    let mut blocks: Vec<u8> = Vec::new();
    let mut offset: usize = 2;
    let mut i: usize = 0;
    while i < SLOT_COUNT
        invariant
            chunks.wf(),
            sizes == chunks.sizes(),
            payloads == chunks.payloads(),
            i <= SLOT_COUNT,
            offset == 2 + sectors_before(sizes, i as int),
            header@ == packed_table(sizes, i as int),
            blocks@ == concat(payloads.take(i as int)),
        decreases SLOT_COUNT - i,
    {
        let chunk = &chunks.chunks[i];
        proof {
            assert(chunks.chunks@[i as int].wf_at(i as int));
            assert forall|j: int| 0 <= j < i implies sizes[j] <= 255 by {
                assert(chunks.chunks@[j].wf_at(j));
            }
            lemma_sectors_before_bound(sizes, i as int);
        }
        let size = chunk.location.size;
        let location: usize = if size == 0 { 0 } else { offset };
        assert(location == packed_offset(sizes, i as int));
        let entry: [u8; 4] = [
            (location / 65536) as u8,
            ((location / 256) % 256) as u8,
            (location % 256) as u8,
            size as u8,
        ];
        assert(entry@ =~= entry_bytes(location as nat, size as nat));
        header.push(entry[0]);
        header.push(entry[1]);
        header.push(entry[2]);
        header.push(entry[3]);
        assert(header@ =~= packed_table(sizes, i + 1));
        assert(payloads.take(i + 1).drop_last() =~= payloads.take(i as int));
        append_sectors(&mut blocks, &chunk.data);
        offset = offset + size;
        i = i + 1;
    }
    assert(payloads.take(SLOT_COUNT as int) =~= payloads);
    let mut out = header;
    append_sector(&mut out, &chunks.timestamps);
    out.append(&mut blocks);
    out
}

} // verus!
