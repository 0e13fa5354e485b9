//! Trimming a repacked image and deciding whether it replaces the original.
use vstd::prelude::*;

use crate::format::{
    image_payloads, lemma_trimmed_len, image_sizes, parse_ok, repacked, timestamps_of, trimmed_len,
    SLOT_COUNT,
};
use crate::parser::{parse_error, parse_mca, Chunks, RegionError};
use crate::writer::write_rca;

verus! {

/// What becomes of an image: the length it ends up with, and the bytes to
/// write in its place when it is rewritten.
#[derive(Debug)]
pub struct Compaction {
    pub new_length: u64,
    pub rewrite: Option<Vec<u8>>,
}

/// The outcome of defragmenting one container image.
#[derive(Debug)]
pub struct Defragmented {
    /// Length of the image as it was.
    pub original_length: u64,
    /// Length of the image afterwards.
    pub new_length: u64,
    /// The bytes that replace the image, when it is to be rewritten.
    pub rewrite: Option<Vec<u8>>,
}

/// The bytes held by an optional buffer.
pub open spec fn bytes_view(o: Option<Vec<u8>>) -> Option<Seq<u8>> {
    match o {
        Some(v) => Some(v@),
        None => None,
    }
}

/// Length and replacement bytes for an image of `original_length` bytes
/// whose repacked form is `image`: the image is trimmed of its trailing
/// zeros; if that is no shorter than the original, nothing changes; in a dry
/// run the shorter length is reported but nothing is written.
pub open spec fn compaction(image: Seq<u8>, original_length: nat, dry: bool) -> (nat, Option<Seq<u8>>) {
    let t = trimmed_len(image);
    if t >= original_length {
        (original_length, None)
    } else if dry {
        (t, None)
    } else {
        (t, Some(image.take(t as int)))
    }
}

impl Compaction {
    pub open spec fn spec_view(&self) -> (nat, Option<Seq<u8>>) {
        (self.new_length as nat, bytes_view(self.rewrite))
    }
}

/// Length of `buf` without its trailing run of zero bytes.
pub fn trimmed_length(buf: &Vec<u8>) -> (r: usize)
    ensures
        r == trimmed_len(buf@),
        r <= buf@.len(),
        forall|k: int| r <= k < buf@.len() ==> buf@[k] == 0,
        r > 0 ==> buf@[r - 1] != 0,
{
    let mut n: usize = buf.len();
    assert(buf@.take(n as int) =~= buf@);
    while n > 0 && buf[n - 1] == 0
        invariant
            n <= buf@.len(),
            trimmed_len(buf@) == trimmed_len(buf@.take(n as int)),
        decreases n,
    {
        assert(buf@.take(n as int).drop_last() =~= buf@.take(n - 1));
        n = n - 1;
    }
    assert(n > 0 ==> buf@.take(n as int).last() == buf@[n - 1]);
    proof {
        lemma_trimmed_len(buf@);
    }
    n
}

/// Trims the repacked image `buf` and decides, against the length of the
/// original, what is kept: a file never grows, and a dry run writes nothing.
pub fn compact(buf: Vec<u8>, original_length: u64, dry: bool) -> (r: Compaction)
    ensures
        r.spec_view() == compaction(buf@, original_length as nat, dry),
        r.new_length <= original_length,
{
    let t = trimmed_length(&buf);
    if t as u64 >= original_length {
        return Compaction { new_length: original_length, rewrite: None };
    }
    if dry {
        return Compaction { new_length: t as u64, rewrite: None };
    }
    let mut out = buf;
    out.truncate(t);
    Compaction { new_length: t as u64, rewrite: Some(out) }
}

/// A decoded container has the sizes, payloads and timestamps of its image.
pub proof fn lemma_decoded_model(c: Chunks, b: Seq<u8>)
    requires
        c.wf(),
        c.decodes(b),
    ensures
        c.sizes() == image_sizes(b),
        c.payloads() == image_payloads(b),
        c.timestamps@ == timestamps_of(b),
{
    assert forall|j: int| 0 <= j < SLOT_COUNT implies c.sizes()[j] == image_sizes(b)[j]
        && c.payloads()[j] == image_payloads(b)[j] by {
        assert(c.chunks@[j].decodes_slot(b, j));
    }
    assert(c.sizes() =~= image_sizes(b));
    assert(c.payloads() =~= image_payloads(b));
}

/// Decodes the container image `contents`, repacks it, trims the result and
/// decides whether it replaces the original.
pub fn defrag(contents: &[u8], dry: bool) -> (r: Result<Defragmented, RegionError>)
    ensures
        match r {
            Ok(d) => {
                &&& parse_ok(contents@)
                &&& d.original_length == contents@.len()
                &&& (d.new_length as nat, bytes_view(d.rewrite)) == compaction(
                    repacked(contents@),
                    contents@.len(),
                    dry,
                )
                &&& d.new_length <= d.original_length
            },
            Err(e) => !parse_ok(contents@) && e == parse_error(contents@),
        },
{
    let original_length = contents.len() as u64;
    let chunks = match parse_mca(contents) {
        Ok(c) => c,
        Err(e) => return Err(e),
    };
    proof {
        lemma_decoded_model(chunks, contents@);
    }
    let buf = write_rca(chunks);
    let c = compact(buf, original_length, dry);
    Ok(Defragmented { original_length, new_length: c.new_length, rewrite: c.rewrite })
}

} // verus!
