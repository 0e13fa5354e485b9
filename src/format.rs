//! The container layout and its mathematical model.
//!
//! An image is a byte sequence. Its first sector is the table: one 4-byte
//! entry per slot (3 bytes big-endian sector offset, 1 byte sector count),
//! slots in z-major, x-minor order. Its second sector holds timestamps that
//! are carried along untouched. Record payloads follow, in whole sectors.
use vstd::prelude::*;

verus! {

/// Bytes in a sector.
pub const SECTOR_SIZE: usize = 4096;

/// Slots along each side of the grid.
pub const GRID_WIDTH: usize = 32;

/// Slots in a container.
pub const SLOT_COUNT: usize = 1024;

/// Bytes taken by the table and the timestamp block.
pub const HEADER_SIZE: usize = 8192;

/// Largest sector offset that a table entry can hold, plus one.
pub const OFFSET_LIMIT: usize = 0x100_0000;

/// Sector offset stored in table entry `i` of image `b`.
pub open spec fn entry_offset(b: Seq<u8>, i: int) -> nat {
    (b[4 * i] as nat) * 65536 + (b[4 * i + 1] as nat) * 256 + (b[4 * i + 2] as nat)
}

/// Sector count stored in table entry `i` of image `b`.
pub open spec fn entry_size(b: Seq<u8>, i: int) -> nat {
    b[4 * i + 3] as nat
}

/// The payload of slot `i` lies wholly inside image `b` (an empty slot has none).
pub open spec fn slot_readable(b: Seq<u8>, i: int) -> bool {
    entry_size(b, i) == 0 || (entry_offset(b, i) + entry_size(b, i)) * 4096 <= b.len()
}

/// `b` is long enough for both tables and every payload it points at lies inside it.
pub open spec fn parse_ok(b: Seq<u8>) -> bool {
    &&& b.len() >= HEADER_SIZE
    &&& forall|i: int| 0 <= i < SLOT_COUNT ==> #[trigger] slot_readable(b, i)
}

/// The payload bytes of slot `i` of image `b`.
pub open spec fn slot_payload(b: Seq<u8>, i: int) -> Seq<u8> {
    if entry_size(b, i) == 0 {
        Seq::empty()
    } else {
        b.subrange(entry_offset(b, i) * 4096int, (entry_offset(b, i) + entry_size(b, i)) * 4096int)
    }
}

/// The timestamp block of image `b`.
pub open spec fn timestamps_of(b: Seq<u8>) -> Seq<u8> {
    b.subrange(SECTOR_SIZE as int, HEADER_SIZE as int)
}

/// The sector counts of all slots of image `b`, in table order.
pub open spec fn image_sizes(b: Seq<u8>) -> Seq<nat> {
    Seq::new(SLOT_COUNT as nat, |i: int| entry_size(b, i))
}

/// The payloads of all slots of image `b`, in table order.
pub open spec fn image_payloads(b: Seq<u8>) -> Seq<Seq<u8>> {
    Seq::new(SLOT_COUNT as nat, |i: int| slot_payload(b, i))
}

/// Sectors taken by the slots before slot `i`.
pub open spec fn sectors_before(sizes: Seq<nat>, i: int) -> nat
    decreases i,
{
    if i <= 0 {
        0
    } else {
        sectors_before(sizes, i - 1) + sizes[i - 1]
    }
}

/// Sector offset of slot `i` once records are laid out back to back from
/// sector 2; an empty slot gets offset 0.
pub open spec fn packed_offset(sizes: Seq<nat>, i: int) -> nat {
    if sizes[i] == 0 {
        0
    } else {
        2 + sectors_before(sizes, i)
    }
}

/// The four bytes of a table entry.
pub open spec fn entry_bytes(offset: nat, size: nat) -> Seq<u8> {
    seq![(offset / 65536) as u8, ((offset / 256) % 256) as u8, (offset % 256) as u8, size as u8]
}

/// The table entries of the first `n` slots of a packed layout.
pub open spec fn packed_table(sizes: Seq<nat>, n: int) -> Seq<u8>
    decreases n,
{
    if n <= 0 {
        Seq::empty()
    } else {
        packed_table(sizes, n - 1) + entry_bytes(packed_offset(sizes, n - 1), sizes[n - 1])
    }
}

/// The parts joined end to end.
pub open spec fn concat(parts: Seq<Seq<u8>>) -> Seq<u8>
    decreases parts.len(),
{
    if parts.len() == 0 {
        Seq::empty()
    } else {
        concat(parts.drop_last()) + parts.last()
    }
}

/// The image of a container laid out back to back: new table, timestamps,
/// then the payloads in slot order.
pub open spec fn packed_image(sizes: Seq<nat>, payloads: Seq<Seq<u8>>, timestamps: Seq<u8>) -> Seq<u8> {
    packed_table(sizes, SLOT_COUNT as int) + timestamps + concat(payloads)
}

/// The repacked form of image `b`.
pub open spec fn repacked(b: Seq<u8>) -> Seq<u8> {
    packed_image(image_sizes(b), image_payloads(b), timestamps_of(b))
}

/// Length of `s` without its trailing run of zero bytes.
pub open spec fn trimmed_len(s: Seq<u8>) -> nat
    decreases s.len(),
{
    if s.len() == 0 {
        0
    } else if s.last() == 0 {
        trimmed_len(s.drop_last())
    } else {
        s.len()
    }
}

} // verus!

verus! {

/// Each slot holds at most 255 sectors, so `i` slots hold at most `255 * i`.
pub proof fn lemma_sectors_before_bound(sizes: Seq<nat>, i: int)
    requires
        0 <= i <= sizes.len(),
        forall|j: int| 0 <= j < i ==> sizes[j] <= 255,
    ensures
        sectors_before(sizes, i) <= 255 * i,
    decreases i,
{
    if i > 0 {
        lemma_sectors_before_bound(sizes, i - 1);
    }
}

/// Sectors taken before a slot only grow along the table.
pub proof fn lemma_sectors_before_monotone(sizes: Seq<nat>, i: int, j: int)
    requires
        0 <= i <= j,
    ensures
        sectors_before(sizes, i) <= sectors_before(sizes, j),
    decreases j - i,
{
    if i < j {
        lemma_sectors_before_monotone(sizes, i, j - 1);
    }
}

/// `sectors_before` reads only the first `i` sizes.
pub proof fn lemma_sectors_before_prefix(a: Seq<nat>, b: Seq<nat>, i: int)
    requires
        0 <= i <= a.len(),
        i <= b.len(),
        forall|j: int| 0 <= j < i ==> a[j] == b[j],
    ensures
        sectors_before(a, i) == sectors_before(b, i),
    decreases i,
{
    if i > 0 {
        lemma_sectors_before_prefix(a, b, i - 1);
    }
}

} // verus!

verus! {

/// `trimmed_len(s)` cuts off exactly the trailing zeros of `s`: all bytes
/// past it are zero, and the byte just before it is not.
pub proof fn lemma_trimmed_len(s: Seq<u8>)
    ensures
        trimmed_len(s) <= s.len(),
        forall|k: int| trimmed_len(s) <= k < s.len() ==> s[k] == 0,
        trimmed_len(s) > 0 ==> s[trimmed_len(s) - 1] != 0,
    decreases s.len(),
{
    if s.len() > 0 && s.last() == 0 {
        lemma_trimmed_len(s.drop_last());
        assert forall|k: int| trimmed_len(s) <= k < s.len() implies s[k] == 0 by {
            if k < s.len() - 1 {
                assert(s[k] == s.drop_last()[k]);
            }
        }
    }
}

} // verus!
