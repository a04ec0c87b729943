//! Byte views of the integer tables that go to the device.
use vstd::prelude::*;
use crate::app::App;
use crate::dispatch::{concat_before, concat_dispatches, lengths_before};

verus! {

/// The words laid out as bytes, each word least significant byte first.
pub open spec fn le_words(words: Seq<u32>) -> Seq<u8>
    decreases words.len(),
{
    if words.len() == 0 {
        Seq::empty()
    } else {
        le_words(words.drop_last()) + vstd::bytes::spec_u32_to_le_bytes(words.last())
    }
}

/// The words laid out as bytes, each word most significant byte first.
pub open spec fn be_words(words: Seq<u32>) -> Seq<u8>
    decreases words.len(),
{
    if words.len() == 0 {
        Seq::empty()
    } else {
        be_words(words.drop_last()) + vstd::bytes::spec_u32_to_le_bytes(words.last()).reverse()
    }
}

/// The memory image of `words` on either byte order: little-endian or
/// big-endian words, one after another.
pub open spec fn word_bytes(words: Seq<u32>, bytes: Seq<u8>) -> bool {
    bytes == le_words(words) || bytes == be_words(words)
}

/// `bytemuck::cast_slice` from `u32` words to bytes: the same memory seen as
/// four bytes per word, so the view is four times as long and holds the
/// words one after another, each in the machine's byte order (little- or
/// big-endian).  It cannot fail for this pair of types (bytes have no
/// alignment and divide any length).
#[verifier::external_body]
fn words_to_bytes(words: &[u32]) -> (bytes: &[u8])
    ensures
        bytes@.len() == 4 * words@.len(),
        word_bytes(words@, bytes@),
{
    bytemuck::cast_slice(words)
}

/// The bytes of all dispatches one after another, as the dispatch buffer is
/// filled on the device.
pub fn dispatch_upload_bytes(dispatches: &[Vec<u32>; 9]) -> (bytes: Vec<u8>)
    ensures
        bytes@.len() == 4 * lengths_before(dispatches@, 9),
        word_bytes(concat_before(dispatches@, 9), bytes@),
{
    let flat = concat_dispatches(dispatches);
    proof {
        crate::dispatch::lemma_metadata_locates_dispatches(dispatches@, 0);
    }
    let view = words_to_bytes(flat.as_slice());
    vstd::slice::slice_to_vec(view)
}

impl App {
    /// The bin start table and the bin contents as bytes, as they are
    /// written to the device before a collision pass.
    pub fn bin_upload_bytes(&self) -> (bytes: (&[u8], &[u8]))
        ensures
            bytes.0@.len() == 4 * self.bin_indices@.len(),
            bytes.1@.len() == 4 * self.bin_particles@.len(),
            word_bytes(self.bin_indices@, bytes.0@),
            word_bytes(self.bin_particles@, bytes.1@),
    {
        (words_to_bytes(self.bin_indices.as_slice()), words_to_bytes(self.bin_particles.as_slice()))
    }
}

} // verus!
