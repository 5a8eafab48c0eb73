//! Fingerprints of tile contents.

use std::hash::DefaultHasher;
use std::hash::Hash;
use std::hash::Hasher;
use vstd::prelude::*;
use vstd::std_specs::hash::DefaultHasherAdditionalSpecFns;

verus! {

/// What hashing a list of glyphs writes into a hasher: a function of the
/// glyphs alone.
pub uninterp spec fn glyph_writes(tiles: Seq<char>) -> Seq<Seq<u8>>;

/// Feeds `tiles` to `state` through the `Hash` impl of `Vec<char>`, which
/// writes the length and then each glyph. The contract says only that what
/// is written is appended to what was written before, and depends on the
/// glyphs alone.
#[verifier::external_body]
fn hash_glyphs(tiles: &Vec<char>, state: &mut DefaultHasher)
    ensures
        final(state)@ == old(state)@ + glyph_writes(tiles@),
{
    tiles.hash(state);
}

/// The fingerprint of a list of glyphs.
pub open spec fn glyph_digest(tiles: Seq<char>) -> u64 {
    DefaultHasher::spec_finish(Seq::<Seq<u8>>::empty() + glyph_writes(tiles))
}

/// The fingerprint of a list of bytes.
pub open spec fn byte_digest(tiles: Seq<u8>) -> u64 {
    DefaultHasher::spec_finish(Seq::<Seq<u8>>::empty().push(tiles))
}

/// Hashes `tiles` with a hasher of fixed keys.
pub fn fingerprint_glyphs(tiles: &Vec<char>) -> (h: u64)
    ensures
        h == glyph_digest(tiles@),
{
    let mut hasher = DefaultHasher::new();
    hash_glyphs(tiles, &mut hasher);
    hasher.finish()
}

/// Hashes `tiles` with a hasher of fixed keys.
pub fn fingerprint_bytes(tiles: &Vec<u8>) -> (h: u64)
    ensures
        h == byte_digest(tiles@),
{
    let mut hasher = DefaultHasher::new();
    hasher.write(tiles.as_slice());
    hasher.finish()
}

} // verus!
