//! Decoding a container image into its slots.
use vstd::prelude::*;

use crate::format::{
    entry_offset, entry_size, image_sizes, lemma_sectors_before_bound, lemma_sectors_before_prefix,
    parse_ok, sectors_before, slot_payload, slot_readable, timestamps_of, GRID_WIDTH, HEADER_SIZE,
    OFFSET_LIMIT, SECTOR_SIZE, SLOT_COUNT,
};

verus! {

/// Where a record lies in its container, and which slot it fills.
#[derive(Debug, Clone, Copy)]
pub struct ChunkLocation {
    /// First sector of the payload.
    pub offset: usize,
    /// Sectors of payload; 0 for an empty slot.
    pub size: usize,
    pub x: u8,
    pub z: u8,
}

/// One slot: its location and its payload, sector by sector.
#[derive(Debug, Clone)]
pub struct Chunk {
    pub location: ChunkLocation,
    pub data: Vec<[u8; 4096]>,
}

/// A decoded container: all 1024 slots in table order, the total sector
/// count, and the timestamp block.
#[derive(Debug)]
pub struct Chunks {
    pub chunks: Vec<Chunk>,
    pub true_size: usize,
    pub timestamps: [u8; 4096],
}

/// Why an image could not be decoded.
#[derive(Debug, Clone, Copy, PartialEq, Eq, Structural)]
pub enum RegionError {
    /// The image is shorter than its two header sectors.
    MalformedContainer,
    /// A table entry points at sectors beyond the end of the image.
    IncompleteRead,
}

/// Sectors joined end to end.
pub open spec fn sectors_bytes(s: Seq<[u8; 4096]>) -> Seq<u8>
    decreases s.len(),
{
    if s.len() == 0 {
        Seq::empty()
    } else {
        sectors_bytes(s.drop_last()) + s.last()@
    }
}

/// The error that decoding image `b` reports when it fails.
pub open spec fn parse_error(b: Seq<u8>) -> RegionError {
    if b.len() < HEADER_SIZE {
        RegionError::MalformedContainer
    } else {
        RegionError::IncompleteRead
    }
}

impl Chunk {
    /// The payload bytes.
    pub open spec fn payload(&self) -> Seq<u8> {
        sectors_bytes(self.data@)
    }

    /// The chunk is a consistent occupant of slot `i`.
    pub open spec fn wf_at(&self, i: int) -> bool {
        &&& self.location.x as int == i % GRID_WIDTH as int
        &&& self.location.z as int == i / GRID_WIDTH as int
        &&& self.location.size <= 255
        &&& self.location.offset < OFFSET_LIMIT
        &&& self.data@.len() == self.location.size
    }

    /// The chunk is what table entry `i` of image `b` describes.
    pub open spec fn decodes_slot(&self, b: Seq<u8>, i: int) -> bool {
        &&& self.location.offset == entry_offset(b, i)
        &&& self.location.size == entry_size(b, i)
        &&& self.payload() == slot_payload(b, i)
    }
}

impl Chunks {
    /// Sector counts of the slots, in table order.
    pub open spec fn sizes(&self) -> Seq<nat> {
        self.chunks@.map_values(|c: Chunk| c.location.size as nat)
    }

    /// Payloads of the slots, in table order.
    pub open spec fn payloads(&self) -> Seq<Seq<u8>> {
        self.chunks@.map_values(|c: Chunk| c.payload())
    }

    /// Exactly one chunk per slot, slot `z * 32 + x` at index `z * 32 + x`,
    /// and `true_size` is the sum of all sector counts.
    pub open spec fn wf(&self) -> bool {
        &&& self.chunks@.len() == SLOT_COUNT
        &&& forall|i: int| 0 <= i < SLOT_COUNT ==> #[trigger] self.chunks@[i].wf_at(i)
        &&& self.true_size == sectors_before(self.sizes(), SLOT_COUNT as int)
    }

    /// Every slot and the timestamp block are as image `b` holds them.
    pub open spec fn decodes(&self, b: Seq<u8>) -> bool {
        &&& forall|i: int| 0 <= i < SLOT_COUNT ==> #[trigger] self.chunks@[i].decodes_slot(b, i)
        &&& self.timestamps@ == timestamps_of(b)
    }
}

/// A sector is 4096 bytes, so `n` sectors are `4096 * n` bytes.
pub proof fn lemma_sectors_bytes_len(s: Seq<[u8; 4096]>)
    ensures
        sectors_bytes(s).len() == 4096 * s.len(),
    decreases s.len(),
{
    if s.len() > 0 {
        lemma_sectors_bytes_len(s.drop_last());
    }
}

/// The sector of `bytes` that starts at `start`.
fn read_sector(bytes: &[u8], start: usize) -> (r: [u8; 4096])
    requires
        start + 4096 <= bytes@.len(),
    ensures
        r@ == bytes@.subrange(start as int, start + 4096),
{
    let n = bytes.len();
    let mut block = [0u8; 4096];
    let mut j: usize = 0;
    while j < SECTOR_SIZE
        invariant
            n == bytes@.len(),
            start + 4096 <= bytes@.len(),
            j <= 4096,
            block@.len() == 4096,
            forall|k: int| 0 <= k < j ==> block@[k] == bytes@[start + k],
        decreases 4096 - j,
    {
        block[j] = bytes[start + j];
        j = j + 1;
    }
    assert(block@ =~= bytes@.subrange(start as int, start + 4096));
    block
}

/// The `count` sectors of `bytes` that start at `start`.
fn read_sectors(bytes: &[u8], start: usize, count: usize) -> (r: Vec<[u8; 4096]>)
    requires
        start + 4096 * count <= bytes@.len(),
    ensures
        r@.len() == count,
        sectors_bytes(r@) == bytes@.subrange(start as int, start + 4096 * count),
{
    let n = bytes.len();
    let mut data: Vec<[u8; 4096]> = Vec::with_capacity(count);
    let mut k: usize = 0;
    while k < count
        invariant
            n == bytes@.len(),
            start + 4096 * count <= bytes@.len(),
            k <= count,
            data@.len() == k,
            sectors_bytes(data@) == bytes@.subrange(start as int, start + 4096 * k),
        decreases count - k,
    {
        let block = read_sector(bytes, start + 4096 * k);
        proof {
            assert(data@.push(block).drop_last() =~= data@);
        }
        data.push(block);
        assert(sectors_bytes(data@) =~= bytes@.subrange(start as int, start + 4096 * k + 4096));
        k = k + 1;
    }
    data
}

/// Decodes a container image. Fails with `MalformedContainer` when the image
/// is shorter than its two header sectors, and with `IncompleteRead` when a
/// table entry points at sectors beyond its end: short payloads are never
/// accepted. Empty slots are kept, with an empty payload.
///
/// The whole image is in memory; slots are read in table order, each at the
/// absolute offset its entry gives, so payloads may overlap or come in any
/// order.
pub fn parse_mca(bytes: &[u8]) -> (r: Result<Chunks, RegionError>)
    ensures
        match r {
            Ok(c) => parse_ok(bytes@) && c.wf() && c.decodes(bytes@),
            Err(e) => !parse_ok(bytes@) && e == parse_error(bytes@),
        },
{
    if bytes.len() < HEADER_SIZE {
        return Err(RegionError::MalformedContainer);
    }
    let timestamps = read_sector(bytes, SECTOR_SIZE);
    let mut chunks: Vec<Chunk> = Vec::with_capacity(SLOT_COUNT);
    let mut true_size: usize = 0;
    let mut i: usize = 0;
    while i < SLOT_COUNT
        invariant
            bytes@.len() >= HEADER_SIZE,
            i <= SLOT_COUNT,
            chunks@.len() == i,
            forall|j: int| 0 <= j < i ==> #[trigger] slot_readable(bytes@, j),
            forall|j: int| 0 <= j < i ==> #[trigger] chunks@[j].wf_at(j),
            forall|j: int| 0 <= j < i ==> #[trigger] chunks@[j].decodes_slot(bytes@, j),
            true_size == sectors_before(image_sizes(bytes@), i as int),
        decreases SLOT_COUNT - i,
    {
        let offset: usize = (bytes[4 * i] as usize) * 65536 + (bytes[4 * i + 1] as usize) * 256
            + (bytes[4 * i + 2] as usize);
        let size: usize = bytes[4 * i + 3] as usize;
        assert(offset == entry_offset(bytes@, i as int));
        assert(size == entry_size(bytes@, i as int));
        let data = if size == 0 {
            Vec::new()
        } else {
            if (offset as u64 + size as u64) * 4096 > bytes.len() as u64 {
                assert(!slot_readable(bytes@, i as int));
                return Err(RegionError::IncompleteRead);
            }
            read_sectors(bytes, offset * 4096, size)
        };
        proof {
            if size == 0 {
                assert(sectors_bytes(data@) =~= slot_payload(bytes@, i as int));
            }
            lemma_sectors_before_bound(image_sizes(bytes@), i as int);
        }
        let chunk = Chunk {
            location: ChunkLocation { offset, size, x: (i % GRID_WIDTH) as u8, z: (i / GRID_WIDTH) as u8 },
            data,
        };
        assert(chunk.decodes_slot(bytes@, i as int));
        chunks.push(chunk);
        true_size = true_size + size;
        i = i + 1;
    }
    let r = Chunks { chunks, true_size, timestamps };
    proof {
        assert forall|j: int| 0 <= j < SLOT_COUNT implies r.sizes()[j] == image_sizes(bytes@)[j] by {
            assert(r.chunks@[j].decodes_slot(bytes@, j));
        }
        assert(r.sizes() =~= image_sizes(bytes@));
        lemma_sectors_before_prefix(r.sizes(), image_sizes(bytes@), SLOT_COUNT as int);
    }
    Ok(r)
}

} // verus!
