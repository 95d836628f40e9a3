//! The zlib compressor and the CRC-32 that pictures and pages are written with.

use std::io::Write;

use flate2::write::ZlibEncoder;
use flate2::{Compression, Crc};
use vstd::prelude::*;

verus! {

/// A zlib stream being written: the `flate2` encoder, its output gathered in a
/// vector.
#[verifier::external_body]
pub struct Deflater {
    zip: ZlibEncoder<Vec<u8>>,
}

/// Everything the encoder was given.
pub uninterp spec fn fed(d: Deflater) -> Seq<u8>;

/// What is in the encoder's vector.
pub uninterp spec fn held(d: Deflater) -> Seq<u8>;

/// Everything that ever came into the encoder's vector, emptied or not.
pub uninterp spec fn emitted(d: Deflater) -> Seq<u8>;

/// What a zlib decoder (`flate2::read::ZlibDecoder`, or any other) gives back
/// of these bytes.
pub uninterp spec fn inflated(stream: Seq<u8>) -> Seq<u8>;

/// What was given to the encoder, write by write.
pub uninterp spec fn writes(d: Deflater) -> Seq<Seq<u8>>;

/// Whether the encoder is one at `flate2::Compression::best`, or one at
/// `flate2::Compression::default`.
pub uninterp spec fn is_best(d: Deflater) -> bool;

/// Whether the last of these writes goes without an error, after all the others
/// did. The encoder writes into a vector, so its own state decides, and that comes
/// of its level and of the writes.
pub uninterp spec fn accepted(best: bool, writes: Seq<Seq<u8>>) -> bool;

/// Whether the stream of these writes ends without an error.
pub uninterp spec fn ended(best: bool, writes: Seq<Seq<u8>>) -> bool;

/// The remainder of a CRC-32 with one bit more divided out, the lowest first.
pub open spec fn crc_bit(c: u32) -> u32 {
    if c & 1 == 1 {
        (c >> 1) ^ 0xEDB8_8320
    } else {
        c >> 1
    }
}

/// The remainder with `n` bits more divided out.
pub open spec fn crc_bits(c: u32, n: nat) -> u32
    decreases n,
{
    if n == 0 {
        c
    } else {
        crc_bits(crc_bit(c), (n - 1) as nat)
    }
}

/// The remainder of these bytes.
pub open spec fn crc_rest(bytes: Seq<u8>) -> u32
    decreases bytes.len(),
{
    if bytes.len() == 0 {
        0xFFFF_FFFF
    } else {
        crc_bits(crc_rest(bytes.drop_last()) ^ bytes.last() as u32, 8)
    }
}

/// The CRC-32 of these bytes.
pub open spec fn crc32(bytes: Seq<u8>) -> u32 {
    crc_rest(bytes) ^ 0xFFFF_FFFF
}

impl Deflater {
    /// `flate2::write::ZlibEncoder::new` over an empty vector, at
    /// `flate2::Compression::best`: nothing given to it, nothing come out. How
    /// small the stream gets is not stated.
    #[verifier::external_body]
    pub(crate) fn best() -> (d: Deflater)
        ensures
            fed(d) == Seq::<u8>::empty(),
            held(d) == Seq::<u8>::empty(),
            emitted(d) == Seq::<u8>::empty(),
            writes(d) == Seq::<Seq<u8>>::empty(),
            is_best(d),
    {
        Deflater { zip: ZlibEncoder::new(Vec::new(), Compression::best()) }
    }

    /// `flate2::write::ZlibEncoder::new` over an empty vector, at
    /// `flate2::Compression::default`: nothing given to it, nothing come out. How
    /// small the stream gets is not stated.
    #[verifier::external_body]
    pub(crate) fn usual() -> (d: Deflater)
        ensures
            fed(d) == Seq::<u8>::empty(),
            held(d) == Seq::<u8>::empty(),
            emitted(d) == Seq::<u8>::empty(),
            writes(d) == Seq::<Seq<u8>>::empty(),
            !is_best(d),
    {
        Deflater { zip: ZlibEncoder::new(Vec::new(), Compression::default()) }
    }

    /// `write_all` on the `flate2` encoder. Where it answers without an error,
    /// the encoder was given all of `data`, and whatever came out of it went to
    /// the end of its vector. Whether it does comes of the level and of the writes
    /// so far. Nothing is claimed of an encoder that fails.
    #[verifier::external_body]
    pub(crate) fn write(&mut self, data: &[u8]) -> (r: Result<(), String>)
        ensures
            r is Ok <==> accepted(is_best(*old(self)), writes(*old(self)).push(data@)),
            r is Ok ==> writes(*final(self)) == writes(*old(self)).push(data@),
            r is Ok ==> is_best(*final(self)) == is_best(*old(self)),
            r is Ok ==> fed(*final(self)) == fed(*old(self)) + data@,
            r is Ok ==> held(*old(self)).is_prefix_of(held(*final(self))),
            r is Ok ==> emitted(*final(self)) == emitted(*old(self)) + held(*final(self)).skip(
                held(*old(self)).len() as int,
            ),
    {
        self.zip.write_all(data).map_err(|e| e.to_string())
    }

    /// `flate2::write::ZlibEncoder::get_ref`: what is in the encoder's vector.
    #[verifier::external_body]
    pub(crate) fn pending(&self) -> (bytes: &Vec<u8>)
        ensures
            bytes@ == held(*self),
    {
        self.zip.get_ref()
    }

    /// `flate2::write::ZlibEncoder::get_mut`, and the vector emptied. The stream
    /// goes on where it was: what was in the vector stays part of it, and the
    /// output is the stream once it is put end to end.
    #[verifier::external_body]
    pub(crate) fn clear(&mut self)
        ensures
            held(*final(self)) == Seq::<u8>::empty(),
            fed(*final(self)) == fed(*old(self)),
            emitted(*final(self)) == emitted(*old(self)),
            writes(*final(self)) == writes(*old(self)),
            is_best(*final(self)) == is_best(*old(self)),
    {
        self.zip.get_mut().clear()
    }

    /// `flate2::write::ZlibEncoder::finish`: the end of the stream goes to the
    /// end of the vector, which is handed back, and the stream is complete: what
    /// came out of the encoder, put end to end, is what a decoder turns back
    /// into everything the encoder was given. Whether it ends without an error
    /// comes of the level and of the writes. Nothing is claimed of an encoder that
    /// fails.
    #[verifier::external_body]
    pub(crate) fn finish(self) -> (r: Result<Vec<u8>, String>)
        ensures
            r is Ok <==> ended(is_best(self), writes(self)),
            r matches Ok(bytes) ==> held(self).is_prefix_of(bytes@),
            r matches Ok(bytes) ==> inflated(
                emitted(self) + bytes@.skip(held(self).len() as int),
            ) == fed(self),
    {
        self.zip.finish().map_err(|e| e.to_string())
    }
}

/// `flate2::Crc`, by `Crc::update` and `Crc::sum`: the CRC-32 of a name and the data
/// after it.
#[verifier::external_body]
pub(crate) fn checksum(name: &[u8], data: &[u8]) -> (sum: u32)
    ensures
        sum == crc32(name@ + data@),
{
    let mut crc = Crc::new();
    crc.update(name);
    crc.update(data);
    crc.sum()
}

} // verus!
