use rca_defrag::{
    compact, defrag, parse_mca, trimmed_length, write_rca, Chunk, ChunkLocation, Chunks,
    RegionError,
};

const SECTOR: usize = 4096;

/// An image of `sectors` sectors whose table holds `entries` as
/// (slot, offset, size); each payload sector is filled with a byte that
/// depends on its slot and position, never zero.
fn image(entries: &[(usize, usize, usize)], sectors: usize) -> Vec<u8> {
    let mut b = vec![0u8; sectors * SECTOR];
    for &(slot, offset, size) in entries {
        b[4 * slot] = (offset >> 16) as u8;
        b[4 * slot + 1] = (offset >> 8) as u8;
        b[4 * slot + 2] = offset as u8;
        b[4 * slot + 3] = size as u8;
        for s in 0..size {
            let fill = ((slot * 7 + s * 13) % 250 + 1) as u8;
            for k in 0..SECTOR {
                b[(offset + s) * SECTOR + k] = fill;
            }
        }
    }
    for k in 0..SECTOR {
        b[SECTOR + k] = (k % 200 + 3) as u8;
    }
    b
}

fn entry(b: &[u8], slot: usize) -> (usize, usize) {
    let o = (b[4 * slot] as usize) << 16 | (b[4 * slot + 1] as usize) << 8 | b[4 * slot + 2] as usize;
    (o, b[4 * slot + 3] as usize)
}

fn payload(b: &[u8], slot: usize) -> Vec<u8> {
    let (o, s) = entry(b, slot);
    b[o * SECTOR..(o + s) * SECTOR].to_vec()
}

#[test]
fn test_defrag() {
    let b = image(&[(0, 40, 2), (5, 7, 1), (700, 20, 3)], 42);
    defrag(&b, true).unwrap();
}

#[test]
fn scenario_single_slot() {
    let b = image(&[(0, 100, 1)], 101);
    let d = defrag(&b, false).unwrap();
    assert_eq!(d.original_length, 101 * 4096);
    assert_eq!(d.new_length, 12288);
    let out = d.rewrite.unwrap();
    assert_eq!(out.len(), 12288);
    assert_eq!(entry(&out, 0), (2, 1));
    assert_eq!(payload(&out, 0), payload(&b, 0));
}

#[test]
fn scenario_three_slots() {
    let last = 31 * 32 + 31;
    let b = image(&[(0, 10, 2), (1, 5, 1), (last, 20, 3)], 23);
    let d = defrag(&b, false).unwrap();
    assert_eq!(d.new_length, 32768);
    let out = d.rewrite.unwrap();
    assert_eq!(out.len(), 32768);
    assert_eq!(entry(&out, 0), (2, 2));
    assert_eq!(entry(&out, 1), (4, 1));
    assert_eq!(entry(&out, last), (5, 3));
    for slot in 2..last {
        assert_eq!(entry(&out, slot), (0, 0));
    }
    for slot in [0, 1, last] {
        assert_eq!(payload(&out, slot), payload(&b, slot));
    }
}

#[test]
fn scenario_already_compact() {
    let b = image(&[(0, 2, 2), (1, 4, 1), (3, 5, 3)], 8);
    let d = defrag(&b, false).unwrap();
    assert_eq!(d.original_length, 8 * 4096);
    assert_eq!(d.new_length, 8 * 4096);
    assert!(d.rewrite.is_none());
}

#[test]
fn second_pass_saves_nothing() {
    let b = image(&[(3, 30, 2), (9, 12, 4), (1000, 50, 1)], 60);
    let first = defrag(&b, false).unwrap();
    assert!(first.new_length < first.original_length);
    let out = first.rewrite.unwrap();
    let second = defrag(&out, false).unwrap();
    assert_eq!(second.original_length, first.new_length);
    assert_eq!(second.new_length, first.new_length);
    assert!(second.rewrite.is_none());
}

#[test]
fn offsets_are_contiguous() {
    let b = image(&[(900, 3, 2), (4, 40, 5), (31, 20, 1), (64, 30, 7)], 47);
    let out = defrag(&b, false).unwrap().rewrite.unwrap();
    let mut next = 2;
    for slot in 0..1024 {
        let (o, s) = entry(&out, slot);
        if s == 0 {
            assert_eq!(o, 0);
        } else {
            assert_eq!(o, next);
            next += s;
        }
    }
    assert_eq!(next, 2 + 5 + 1 + 7 + 2);
}

#[test]
fn payloads_and_timestamps_are_kept() {
    let b = image(&[(17, 9, 3), (2, 30, 1), (512, 14, 2)], 31);
    let out = defrag(&b, false).unwrap().rewrite.unwrap();
    for slot in [17, 2, 512] {
        assert_eq!(entry(&out, slot).1, entry(&b, slot).1);
        assert_eq!(payload(&out, slot), payload(&b, slot));
    }
    assert_eq!(out[4096..8192], b[4096..8192]);
}

#[test]
fn never_grows() {
    // Records already packed but behind a gap-free layout of equal length.
    let b = image(&[(0, 2, 1)], 3);
    let d = defrag(&b, false).unwrap();
    assert!(d.new_length <= d.original_length);
    assert_eq!(d.new_length, 3 * 4096);
    let c = compact(vec![1u8; 100], 50, false);
    assert_eq!(c.new_length, 50);
    assert!(c.rewrite.is_none());
}

#[test]
fn dry_run_reports_without_rewriting() {
    let b = image(&[(0, 100, 1)], 101);
    let dry = defrag(&b, true).unwrap();
    let real = defrag(&b, false).unwrap();
    assert_eq!(dry.new_length, real.new_length);
    assert_eq!(dry.new_length, 12288);
    assert!(dry.rewrite.is_none());
    assert!(real.rewrite.is_some());
}

#[test]
fn short_header_is_malformed() {
    let b = vec![0u8; 8191];
    assert_eq!(parse_mca(&b).unwrap_err(), RegionError::MalformedContainer);
    assert_eq!(defrag(&b, true).unwrap_err(), RegionError::MalformedContainer);
    assert_eq!(parse_mca(&[]).unwrap_err(), RegionError::MalformedContainer);
}

#[test]
fn payload_past_end_is_incomplete() {
    let mut b = image(&[(0, 2, 1)], 3);
    b[3] = 2;
    assert_eq!(parse_mca(&b).unwrap_err(), RegionError::IncompleteRead);
    let mut c = image(&[(0, 2, 1)], 3);
    c.truncate(3 * 4096 - 1);
    assert_eq!(defrag(&c, true).unwrap_err(), RegionError::IncompleteRead);
}

#[test]
fn empty_slot_offset_is_ignored() {
    let mut b = image(&[], 2);
    b[4 * 7 + 2] = 200;
    let c = parse_mca(&b).unwrap();
    assert_eq!(c.chunks[7].location.offset, 200);
    assert_eq!(c.chunks[7].location.size, 0);
    assert!(c.chunks[7].data.is_empty());
    let out = write_rca(c);
    assert_eq!(entry(&out, 7), (0, 0));
    assert_eq!(out.len(), 8192);
}

#[test]
fn parse_decodes_table() {
    let b = image(&[(33, 0x010203, 0)], 2);
    let c = parse_mca(&b).unwrap();
    assert_eq!(c.chunks.len(), 1024);
    assert_eq!(c.true_size, 0);
    let l = c.chunks[33].location;
    assert_eq!((l.offset, l.size, l.x, l.z), (0x010203, 0, 1, 1));
    let b = image(&[(40, 2, 3), (41, 5, 1)], 6);
    let c = parse_mca(&b).unwrap();
    assert_eq!(c.true_size, 4);
    assert_eq!(c.chunks[40].data.len(), 3);
    assert_eq!(c.chunks[40].data[1][0], b[3 * 4096]);
    assert_eq!(c.timestamps[..], b[4096..8192]);
    assert_eq!(c.chunks[1023].location.x, 31);
    assert_eq!(c.chunks[1023].location.z, 31);
}

#[test]
fn write_builds_table_and_payload() {
    let mut chunks = Vec::new();
    for i in 0..1024usize {
        let size = if i == 1 { 2 } else { 0 };
        chunks.push(Chunk {
            location: ChunkLocation { offset: 77, size, x: (i % 32) as u8, z: (i / 32) as u8 },
            data: vec![[9u8; 4096]; size],
        });
    }
    let c = Chunks { chunks, true_size: 2, timestamps: [5u8; 4096] };
    let out = write_rca(c);
    assert_eq!(out.len(), 4 * 4096);
    assert_eq!(&out[0..8], &[0, 0, 0, 0, 0, 0, 2, 2]);
    assert!(out[4096..8192].iter().all(|&v| v == 5));
    assert!(out[8192..].iter().all(|&v| v == 9));
}

#[test]
fn trimming_drops_trailing_zeros() {
    assert_eq!(trimmed_length(&vec![]), 0);
    assert_eq!(trimmed_length(&vec![0, 0, 0]), 0);
    assert_eq!(trimmed_length(&vec![1, 0, 2, 0, 0]), 3);
    assert_eq!(trimmed_length(&vec![0, 0, 7]), 3);
}

#[test]
fn compaction_decisions() {
    let buf = vec![1u8, 2, 3, 0, 0, 0];
    let c = compact(buf.clone(), 10, false);
    assert_eq!(c.new_length, 3);
    assert_eq!(c.rewrite.unwrap(), vec![1, 2, 3]);
    let c = compact(buf.clone(), 10, true);
    assert_eq!(c.new_length, 3);
    assert!(c.rewrite.is_none());
    let c = compact(buf.clone(), 3, false);
    assert_eq!(c.new_length, 3);
    assert!(c.rewrite.is_none());
    let c = compact(buf, 2, false);
    assert_eq!(c.new_length, 2);
    assert!(c.rewrite.is_none());
}

#[test]
fn trailing_zero_payload_is_trimmed() {
    let mut b = image(&[(0, 10, 1)], 11);
    for k in 2048..4096 {
        b[10 * 4096 + k] = 0;
    }
    let d = defrag(&b, false).unwrap();
    assert_eq!(d.new_length, 8192 + 2048);
    // The trimmed image no longer holds the whole payload: reads are strict.
    assert_eq!(defrag(&d.rewrite.unwrap(), false).unwrap_err(), RegionError::IncompleteRead);
}
