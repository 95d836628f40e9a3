//! A picture of three bytes a pixel, written as a PNG in one go.

use vstd::prelude::*;
use vstd::string::*;

use crate::image::{
    be32, chunk, chunk_bytes, chunks, end_to_end, idat, iend, ihdr, is_picture, push_be32,
    put_data, signature, NO_FILTER,
};
use crate::zip::{accepted, emitted, ended, fed, held, writes, Deflater};

verus! {

/// The scanlines of a picture: the bytes of its rows, no filter on any.
pub open spec fn scanlines(rgb: Seq<u8>, width: nat, height: nat) -> Seq<Seq<u8>> {
    Seq::new(
        height,
        |y: int| seq![NO_FILTER] + rgb.subrange(y * (3 * width), (y + 1) * (3 * width)),
    )
}

/// Everything before the pixels: the signature, and the size, in eight bits of three
/// colours. A size is written as four bytes hold it.
pub open spec fn colour_front(width: nat, height: nat) -> Seq<u8> {
    signature() + chunk_bytes(
        ihdr(),
        be32(width % 0x1_0000_0000) + be32(height % 0x1_0000_0000) + seq![8u8, 2, 0, 0, 0],
    )
}

/// The rows of the picture as they go to the compressor.
fn gather_rows(rgb: &Vec<u8>, width: usize, height: usize) -> (out: Vec<u8>)
    requires
        3 * width * height <= rgb@.len(),
    ensures
        out@ == end_to_end(scanlines(rgb@, width as nat, height as nat)),
{
    let ghost lines = scanlines(rgb@, width as nat, height as nat);
    let mut out: Vec<u8> = Vec::new();
    let len: usize = rgb.len();
    let mut at: usize = 0;
    let mut y: usize = 0;
    assert(lines.take(0) =~= Seq::<Seq<u8>>::empty());
    while y < height
        invariant
            y <= height,
            3 * width * height <= len == rgb@.len(),
            lines == scanlines(rgb@, width as nat, height as nat),
            at == y * (3 * width),
            at <= rgb@.len(),
            out@ == end_to_end(lines.take(y as int)),
        decreases height - y,
    {
        let ghost before = out@;
        proof {
            assert((y + 1) * (3 * width) <= 3 * width * height && (y + 1) * (3 * width) == y * (3
                * width) + 3 * width) by (nonlinear_arith)
                requires
                    0 <= y < height,
                    0 <= width,
            ;
            assert(0 <= y * (3 * width)) by (nonlinear_arith)
                requires
                    0 <= y,
                    0 <= width,
            ;
        }
        out.push(NO_FILTER);
        let end: usize = at + 3 * width;
        let row = vstd::slice::slice_subrange(rgb.as_slice(), at, end);
        out.extend_from_slice(row);
        proof {
            assert(lines.take(y + 1).drop_last() =~= lines.take(y as int));
            assert(lines.take(y + 1).last() == lines[y as int]);
            assert(row@ =~= rgb@.subrange(y * (3 * width), (y + 1) * (3 * width)));
            assert(out@ =~= before + lines[y as int]);
        }
        at = end;
        y += 1;
    }
    assert(lines.take(height as int) =~= lines);
    out
}

/// Whether a picture can be deflated: the encoder takes all of its rows, and ends.
pub open spec fn deflates(rgb: Seq<u8>, width: nat, height: nat) -> bool {
    let all = end_to_end(scanlines(rgb, width, height));
    accepted(false, seq![all]) && ended(false, seq![all])
}

/// A picture as a file.
pub fn write_png(width: usize, height: usize, rgb: &Vec<u8>) -> (r: Result<Vec<u8>, String>)
    requires
        3 * width * height <= rgb@.len(),
    ensures
        r is Ok <==> deflates(rgb@, width as nat, height as nat),
        r matches Ok(file) ==> is_picture(
            file@,
            colour_front(width as nat, height as nat),
            scanlines(rgb@, width as nat, height as nat),
        ),
{
    let ghost lines = scanlines(rgb@, width as nat, height as nat);
    let rows = gather_rows(rgb, width, height);
    let mut zip = Deflater::usual();
    assert(writes(zip).push(rows@) =~= seq![rows@]);
    match zip.write(rows.as_slice()) {
        Ok(()) => {},
        Err(e) => {
            return Err(e);
        },
    }
    let ghost full = zip;
    let stream = match zip.finish() {
        Ok(stream) => stream,
        Err(e) => {
            return Err(e);
        },
    };
    proof {
        let tail = stream@.skip(held(full).len() as int);
        assert(emitted(full) =~= held(full));
        assert(emitted(full) + tail =~= stream@);
        assert(fed(full) =~= rows@);
    }
    let mut out: Vec<u8> = Vec::new();
    let magic: [u8; 8] = [0x89, 0x50, 0x4e, 0x47, 0x0d, 0x0a, 0x1a, 0x0a];
    out.extend_from_slice(magic.as_slice());
    assert(out@ =~= signature());
    let mut size: Vec<u8> = Vec::new();
    push_be32(&mut size, ((width as u64) % 0x1_0000_0000) as u32);
    push_be32(&mut size, ((height as u64) % 0x1_0000_0000) as u32);
    let rest: [u8; 5] = [8, 2, 0, 0, 0];
    size.extend_from_slice(rest.as_slice());
    assert(size@ =~= be32(width as nat % 0x1_0000_0000) + be32(height as nat % 0x1_0000_0000)
        + seq![8u8, 2, 0, 0, 0]);
    let header: [u8; 4] = [0x49, 0x48, 0x44, 0x52];
    assert(header@ =~= ihdr());
    chunk(&mut out, header, size.as_slice());
    let Ghost(pieces) = put_data(&mut out, stream.as_slice());
    let end: [u8; 4] = [0x49, 0x45, 0x4e, 0x44];
    assert(end@ =~= iend());
    let nothing: Vec<u8> = Vec::new();
    chunk(&mut out, end, nothing.as_slice());
    proof {
        assert(nothing@ =~= Seq::<u8>::empty());
        assert(out@ =~= colour_front(width as nat, height as nat) + chunks(idat(), pieces)
            + chunk_bytes(iend(), Seq::empty()));
        assert(end_to_end(pieces) == stream@);
    }
    Ok(out)
}

} // verus!
