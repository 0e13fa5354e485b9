//! What repacking keeps and what it changes, stated over container images.
use vstd::prelude::*;

use crate::defrag::compaction;
use crate::format::{
    concat, entry_bytes, entry_offset, entry_size, image_payloads, image_sizes,
    lemma_sectors_before_bound, lemma_sectors_before_monotone, packed_offset, packed_table,
    parse_ok, repacked, sectors_before, slot_payload, slot_readable, timestamps_of, trimmed_len,
    OFFSET_LIMIT, SLOT_COUNT,
};

verus! {

/// A table entry decodes to the offset and count it was built from.
proof fn lemma_entry_round_trip(offset: nat, size: nat)
    requires
        offset < OFFSET_LIMIT,
        size < 256,
    ensures
        (entry_bytes(offset, size)[0] as nat) * 65536 + (entry_bytes(offset, size)[1] as nat) * 256
            + (entry_bytes(offset, size)[2] as nat) == offset,
        entry_bytes(offset, size)[3] as nat == size,
{
    let x = offset as u32;
    assert((x / 65536) * 65536 + ((x / 256) % 256) * 256 + x % 256 == x && x / 65536 < 256)
        by (bit_vector)
        requires
            x < 0x100_0000,
    ;
}

/// The table of a packed layout holds entry `i` at bytes `4 * i .. 4 * i + 4`.
proof fn lemma_packed_table_entry(sizes: Seq<nat>, n: int, i: int)
    requires
        0 <= i < n <= sizes.len(),
    ensures
        packed_table(sizes, n).len() == 4 * n,
        packed_table(sizes, n)[4 * i] == entry_bytes(packed_offset(sizes, i), sizes[i])[0],
        packed_table(sizes, n)[4 * i + 1] == entry_bytes(packed_offset(sizes, i), sizes[i])[1],
        packed_table(sizes, n)[4 * i + 2] == entry_bytes(packed_offset(sizes, i), sizes[i])[2],
        packed_table(sizes, n)[4 * i + 3] == entry_bytes(packed_offset(sizes, i), sizes[i])[3],
    decreases n,
{
    lemma_packed_table_len(sizes, n - 1);
    if i < n - 1 {
        lemma_packed_table_entry(sizes, n - 1, i);
    }
}

/// The table of `n` slots takes `4 * n` bytes.
proof fn lemma_packed_table_len(sizes: Seq<nat>, n: int)
    requires
        0 <= n,
    ensures
        packed_table(sizes, n).len() == 4 * n,
    decreases n,
{
    if n > 0 {
        lemma_packed_table_len(sizes, n - 1);
    }
}

/// Parts of `4096 * sizes[j]` bytes each join into `4096` bytes per sector.
proof fn lemma_concat_len(parts: Seq<Seq<u8>>, sizes: Seq<nat>)
    requires
        parts.len() <= sizes.len(),
        forall|j: int| 0 <= j < parts.len() ==> #[trigger] parts[j].len() == 4096 * sizes[j],
    ensures
        concat(parts).len() == 4096 * sectors_before(sizes, parts.len() as int),
    decreases parts.len(),
{
    if parts.len() > 0 {
        lemma_concat_len(parts.drop_last(), sizes);
    }
}

/// Part `i` sits in the joined bytes right after the parts before it.
proof fn lemma_concat_part(parts: Seq<Seq<u8>>, sizes: Seq<nat>, i: int)
    requires
        0 <= i < parts.len() <= sizes.len(),
        forall|j: int| 0 <= j < parts.len() ==> #[trigger] parts[j].len() == 4096 * sizes[j],
    ensures
        concat(parts).subrange(4096int * sectors_before(sizes, i), 4096int * sectors_before(sizes, i + 1))
            == parts[i],
    decreases parts.len(),
{
    let prefix = parts.drop_last();
    lemma_concat_len(prefix, sizes);
    if i < parts.len() - 1 {
        lemma_concat_part(prefix, sizes, i);
        lemma_sectors_before_monotone(sizes, i + 1, parts.len() - 1);
        assert(concat(parts).subrange(4096int * sectors_before(sizes, i), 4096int * sectors_before(sizes, i + 1))
            =~= concat(prefix).subrange(4096int * sectors_before(sizes, i), 4096int * sectors_before(sizes, i + 1)));
    } else {
        assert(concat(parts).subrange(4096int * sectors_before(sizes, i), 4096int * sectors_before(sizes, i + 1))
            =~= parts.last());
    }
}

/// In a decodable image each payload is `4096` bytes per sector of its slot.
proof fn lemma_payload_lens(b: Seq<u8>)
    requires
        parse_ok(b),
    ensures
        forall|j: int| 0 <= j < SLOT_COUNT ==>
            #[trigger] image_payloads(b)[j].len() == 4096 * image_sizes(b)[j],
{
    assert forall|j: int| 0 <= j < SLOT_COUNT implies
        #[trigger] image_payloads(b)[j].len() == 4096 * image_sizes(b)[j] by {
        assert(slot_readable(b, j));
    }
}

/// The repacked image decodes again, to the same sector counts, payloads and
/// timestamps; each populated slot now starts at sector 2 plus the sectors of
/// the slots before it, and each empty one at offset 0.
pub proof fn lemma_repacked_image(b: Seq<u8>)
    requires
        parse_ok(b),
    ensures
        parse_ok(repacked(b)),
        image_sizes(repacked(b)) == image_sizes(b),
        image_payloads(repacked(b)) == image_payloads(b),
        timestamps_of(repacked(b)) == timestamps_of(b),
        forall|i: int| 0 <= i < SLOT_COUNT ==>
            #[trigger] entry_offset(repacked(b), i) == packed_offset(image_sizes(b), i),
{
    let sizes = image_sizes(b);
    let payloads = image_payloads(b);
    let table = packed_table(sizes, SLOT_COUNT as int);
    let body = concat(payloads);
    let r = repacked(b);
    let total = sectors_before(sizes, SLOT_COUNT as int);
    lemma_payload_lens(b);
    lemma_packed_table_len(sizes, SLOT_COUNT as int);
    lemma_concat_len(payloads, sizes);
    lemma_sectors_before_bound(sizes, SLOT_COUNT as int);
    assert(r.len() == 8192 + 4096 * total);
    assert forall|i: int|
        #![trigger entry_size(r, i)]
        #![trigger entry_offset(r, i)]
        #![trigger slot_payload(r, i)]
        0 <= i < SLOT_COUNT implies {
        &&& entry_size(r, i) == sizes[i]
        &&& entry_offset(r, i) == packed_offset(sizes, i)
        &&& slot_readable(r, i)
        &&& slot_payload(r, i) == payloads[i]
    } by {
        lemma_packed_table_entry(sizes, SLOT_COUNT as int, i);
        lemma_sectors_before_bound(sizes, i);
        lemma_sectors_before_monotone(sizes, i + 1, SLOT_COUNT as int);
        lemma_entry_round_trip(packed_offset(sizes, i), sizes[i]);
        assert(r[4 * i] == table[4 * i]);
        assert(r[4 * i + 1] == table[4 * i + 1]);
        assert(r[4 * i + 2] == table[4 * i + 2]);
        assert(r[4 * i + 3] == table[4 * i + 3]);
        if sizes[i] > 0 {
            lemma_concat_part(payloads, sizes, i);
            assert(r.subrange(entry_offset(r, i) * 4096int, (entry_offset(r, i) + entry_size(r, i)) * 4096int)
                =~= body.subrange(4096int * sectors_before(sizes, i), 4096int * sectors_before(sizes, i + 1)));
        } else {
            assert(slot_payload(b, i) =~= Seq::<u8>::empty());
        }
    }
    assert(image_sizes(r) =~= sizes);
    assert(image_payloads(r) =~= payloads);
    assert(timestamps_of(r) =~= timestamps_of(b));
}

} // verus!

verus! {

/// Empty slots add no sectors: between two slots with only empty ones in
/// between, the sector count grows by the first slot's size alone.
proof fn lemma_sectors_before_skip_empty(sizes: Seq<nat>, i: int, j: int)
    requires
        0 <= i < j <= sizes.len(),
        forall|k: int| i < k < j ==> #[trigger] sizes[k] == 0,
    ensures
        sectors_before(sizes, j) == sectors_before(sizes, i) + sizes[i],
    decreases j - i,
{
    if j > i + 1 {
        lemma_sectors_before_skip_empty(sizes, i, j - 1);
    }
}

/// Repacking keeps every slot's sector count and payload bytes.
pub proof fn lemma_payloads_preserved(b: Seq<u8>)
    requires
        parse_ok(b),
    ensures
        forall|i: int| 0 <= i < SLOT_COUNT ==> {
            &&& #[trigger] entry_size(repacked(b), i) == entry_size(b, i)
            &&& slot_payload(repacked(b), i) == slot_payload(b, i)
        },
{
    lemma_repacked_image(b);
    assert forall|i: int| 0 <= i < SLOT_COUNT implies {
        &&& #[trigger] entry_size(repacked(b), i) == entry_size(b, i)
        &&& slot_payload(repacked(b), i) == slot_payload(b, i)
    } by {
        assert(image_sizes(repacked(b))[i] == image_sizes(b)[i]);
        assert(image_payloads(repacked(b))[i] == image_payloads(b)[i]);
    }
}

/// Repacking carries the timestamp block over byte for byte.
pub proof fn lemma_timestamps_preserved(b: Seq<u8>)
    requires
        parse_ok(b),
    ensures
        timestamps_of(repacked(b)) == timestamps_of(b),
{
    lemma_repacked_image(b);
}

/// In a repacked image an empty slot has offset 0, and the first populated
/// slot starts at sector 2.
pub proof fn lemma_first_offset(b: Seq<u8>, j: int)
    requires
        parse_ok(b),
        0 <= j < SLOT_COUNT,
    ensures
        entry_size(repacked(b), j) == 0 ==> entry_offset(repacked(b), j) == 0,
        entry_size(repacked(b), j) > 0 && (forall|k: int| 0 <= k < j ==> #[trigger] entry_size(repacked(b), k) == 0)
            ==> entry_offset(repacked(b), j) == 2,
{
    lemma_repacked_image(b);
    let sizes = image_sizes(b);
    assert(entry_offset(repacked(b), j) == packed_offset(sizes, j));
    assert(entry_size(repacked(b), j) == image_sizes(repacked(b))[j]);
    if entry_size(repacked(b), j) > 0 && (forall|k: int| 0 <= k < j ==> #[trigger] entry_size(repacked(b), k) == 0) {
        assert forall|k: int| 0 <= k < j implies sizes[k] == 0 by {
            assert(entry_size(repacked(b), k) == image_sizes(repacked(b))[k]);
        }
        if j > 0 {
            lemma_sectors_before_skip_empty(sizes, 0, j);
        }
    }
}

/// In a repacked image consecutive populated slots are contiguous: the next
/// one starts where the one before it ends.
pub proof fn lemma_offsets_contiguous(b: Seq<u8>, i: int, j: int)
    requires
        parse_ok(b),
        0 <= i < j < SLOT_COUNT,
        entry_size(repacked(b), i) > 0,
        entry_size(repacked(b), j) > 0,
        forall|k: int| i < k < j ==> #[trigger] entry_size(repacked(b), k) == 0,
    ensures
        entry_offset(repacked(b), j) == entry_offset(repacked(b), i) + entry_size(repacked(b), i),
{
    lemma_repacked_image(b);
    let sizes = image_sizes(b);
    assert(entry_offset(repacked(b), i) == packed_offset(sizes, i));
    assert(entry_offset(repacked(b), j) == packed_offset(sizes, j));
    assert(entry_size(repacked(b), i) == image_sizes(repacked(b))[i]);
    assert(entry_size(repacked(b), j) == image_sizes(repacked(b))[j]);
    assert forall|k: int| i < k < j implies #[trigger] sizes[k] == 0 by {
        assert(entry_size(repacked(b), k) == image_sizes(repacked(b))[k]);
    }
    lemma_sectors_before_skip_empty(sizes, i, j);
}

/// The image that a pass leaves behind: the rewritten bytes, or the image
/// itself when it is not rewritten.
pub open spec fn after_pass(b: Seq<u8>, dry: bool) -> Seq<u8> {
    match compaction(repacked(b), b.len(), dry).1 {
        Some(image) => image,
        None => b,
    }
}

/// A second pass over what a first pass wrote saves nothing more. Left out
/// are the images whose rewrite would cut trailing zeros off the last
/// payload: payloads are read strictly, so the cut image no longer decodes.
pub proof fn lemma_repack_idempotent(b: Seq<u8>)
    requires
        parse_ok(b),
        trimmed_len(repacked(b)) < b.len() ==> trimmed_len(repacked(b)) == repacked(b).len(),
    ensures
        parse_ok(after_pass(b, false)),
        compaction(repacked(after_pass(b, false)), after_pass(b, false).len(), false) == (
        after_pass(b, false).len(),
        None::<Seq<u8>>,
        ),
{
    let r = repacked(b);
    if trimmed_len(r) < b.len() {
        assert(r.take(trimmed_len(r) as int) =~= r);
        lemma_repacked_image(b);
        assert(repacked(r) == r);
    }
}

} // verus!

verus! {

/// A dry run reports the same new length as a real run, and leaves the
/// image as it was.
pub proof fn lemma_dry_run_pure(b: Seq<u8>)
    ensures
        compaction(repacked(b), b.len(), true).0 == compaction(repacked(b), b.len(), false).0,
        compaction(repacked(b), b.len(), true).1 is None,
        after_pass(b, true) == b,
{
}

} // verus!
