//! Colours as a picture: a PNG with a row per transaction and a column per
//! block, inked wherever that block is in that transaction's colour.
//!
//! A row may stand for more than one transaction: so many consecutive
//! transactions share a row, and the row they share is the union of their
//! colours, each pixel the darker of the shades. Both dimensions are settled
//! before the first row, because the file states them in front of it; a row past
//! the last is refused, and records that run out early leave blank rows.
//!
//! A picture is written a scanline at a time: a row is packed as it is drawn,
//! handed to the compressor when it closes, and the compressed bytes go out a
//! chunk at a time.

use vstd::prelude::*;
use vstd::string::*;

use crate::text::{dec, push_dec, push_wide};
use crate::zip::{
    accepted, checksum, crc32, emitted, ended, fed, held, inflated, is_best, writes, Deflater,
};

verus! {

/// A block that is in the colour, drawn as fully as the depth allows: black.
pub const INK: u8 = 0;

/// One that is not, at one bit a sample: white.
pub const PAPER: u8 = 1;

/// The same at eight bits a sample.
pub const PAPER_8: u8 = 255;

/// How much compressed output to gather before it goes out as a chunk.
pub const IDAT: usize = 1_048_576;

/// The filter byte in front of every scanline.
pub const NO_FILTER: u8 = 0;

/// A byte of blank paper: eight pixels at one bit, or one sample at eight.
pub const BLANK: u8 = 0xff;

/// What a pixel says.
#[derive(Clone, Copy, Debug, PartialEq, Eq, Structural)]
pub enum Ink {
    /// One bit: the block is in the colour or it is not.
    Flat,
    /// Eight bits: how much of the transaction's value came through the block.
    Weighted,
    /// The same eight bits, read through a palette rather than as a grey.
    Palette,
}

impl Ink {
    /// Bits a sample.
    pub open spec fn bits(self) -> u8 {
        match self {
            Ink::Flat => 1,
            _ => 8,
        }
    }

    /// What the header calls the pixel: 0 is greyscale, 3 is a palette index.
    pub open spec fn kind(self) -> u8 {
        match self {
            Ink::Palette => 3,
            _ => 0,
        }
    }

    /// Bytes a scanline comes to, the filter byte aside.
    pub open spec fn bytes(self, width: nat) -> nat {
        match self {
            Ink::Flat => (width + 7) / 8,
            _ => width,
        }
    }

    /// A pixel nothing was drawn on.
    pub open spec fn paper(self) -> u8 {
        match self {
            Ink::Flat => PAPER,
            _ => PAPER_8,
        }
    }

    /// A pixel drawn with so much ink, 255 being all of it: at one bit there is
    /// only ink.
    pub open spec fn sample(self, shade: u8) -> u8 {
        match self {
            Ink::Flat => INK,
            _ => (PAPER_8 - shade) as u8,
        }
    }

    /// Bits a sample, which is what the header is told.
    pub fn depth(self) -> (d: u8)
        ensures
            d == self.bits(),
    {
        match self {
            Ink::Flat => 1,
            Ink::Weighted | Ink::Palette => 8,
        }
    }

    /// What the header calls the pixel: 0 is greyscale, 3 is a palette index.
    pub fn colour_type(self) -> (t: u8)
        ensures
            t == self.kind(),
    {
        match self {
            Ink::Flat | Ink::Weighted => 0,
            Ink::Palette => 3,
        }
    }

    /// Bytes a scanline of `width` pixels comes to, the filter byte aside.
    pub fn stride(self, width: usize) -> (n: usize)
        ensures
            n == self.bytes(width as nat),
    {
        match self {
            Ink::Flat => width / 8 + if width % 8 == 0 { 0 } else { 1 },
            Ink::Weighted | Ink::Palette => width,
        }
    }
}

/// One pixel drawn: the block and how much ink.
pub type Mark = (usize, u8);

/// The byte of a scanline that holds a pixel.
pub open spec fn byte_of(ink: Ink, block: nat) -> nat {
    match ink {
        Ink::Flat => 1 + block / 8,
        _ => 1 + block,
    }
}

/// The scanline with one pixel drawn: a bit cleared, or a sample lowered. A
/// sample counts up to white, so the darker of two is the smaller, and the row
/// keeps that one.
pub open spec fn with_mark(row: Seq<u8>, ink: Ink, mark: Mark) -> Seq<u8> {
    let at = byte_of(ink, mark.0 as nat) as int;
    match ink {
        Ink::Flat => row.update(at, row[at] & !(0x80u8 >> ((mark.0 % 8) as u8))),
        _ => if ink.sample(mark.1) < row[at] {
            row.update(at, ink.sample(mark.1))
        } else {
            row
        },
    }
}

/// A scanline nothing was drawn on.
pub open spec fn blank_row(ink: Ink, width: nat) -> Seq<u8> {
    Seq::new(1 + ink.bytes(width), |i: int| if i == 0 { NO_FILTER } else { BLANK })
}

/// The scanline of what was drawn on it.
pub open spec fn drawn_row(ink: Ink, width: nat, marks: Seq<Mark>) -> Seq<u8>
    decreases marks.len(),
{
    if marks.len() == 0 {
        blank_row(ink, width)
    } else {
        with_mark(drawn_row(ink, width, marks.drop_last()), ink, marks.last())
    }
}

/// The pixel of a block on a scanline: the leftmost in the most significant
/// bit, or one byte each.
pub open spec fn pixel(row: Seq<u8>, ink: Ink, block: nat) -> u8 {
    let byte = row[byte_of(ink, block) as int];
    match ink {
        Ink::Flat => (byte >> ((7 - block % 8) as u8)) & 1,
        _ => byte,
    }
}

/// The darkest pixel drawn on a block, or paper.
pub open spec fn darkest(ink: Ink, marks: Seq<Mark>, block: nat) -> u8
    decreases marks.len(),
{
    if marks.len() == 0 {
        ink.paper()
    } else {
        let rest = darkest(ink, marks.drop_last(), block);
        let (b, shade) = marks.last();
        if b == block && ink.sample(shade) < rest {
            ink.sample(shade)
        } else {
            rest
        }
    }
}

/// Every pixel drawn is on the picture.
pub open spec fn marks_within(marks: Seq<Mark>, width: nat) -> bool {
    forall|i: int| #![trigger marks[i]] 0 <= i < marks.len() ==> marks[i].0 < width
}

proof fn drawn_row_len(ink: Ink, width: nat, marks: Seq<Mark>)
    requires
        marks_within(marks, width),
    ensures
        drawn_row(ink, width, marks).len() == 1 + ink.bytes(width),
    decreases marks.len(),
{
    if marks.len() > 0 {
        let front = marks.drop_last();
        assert(marks[marks.len() - 1].0 < width);
        byte_is_in(ink, width, marks.last().0 as nat);
        assert forall|i: int| #![trigger front[i]] 0 <= i < front.len() implies front[i].0
            < width by {
            assert(marks[i].0 < width);
        }
        drawn_row_len(ink, width, front);
    }
}

proof fn bit_cleared(x: u8, k: u8, j: u8)
    requires
        k < 8,
        j < 8,
    ensures
        ((x & !(0x80u8 >> k)) >> ((7 - j) as u8)) & 1 == (if j == k {
            0u8
        } else {
            (x >> ((7 - j) as u8)) & 1
        }),
{
    let i: u8 = (7 - j) as u8;
    assert(i ^ 7u8 == j) by (bit_vector)
        requires
            i < 8,
            j < 8,
            i + j == 7,
    ;
    assert(((x & !(0x80u8 >> k)) >> i) & 1 == (if i ^ 7u8 == k {
        0u8
    } else {
        (x >> i) & 1
    })) by (bit_vector)
        requires
            k < 8,
            i < 8,
    ;
}

proof fn blank_bit(k: u8)
    requires
        k < 8,
    ensures
        (0xffu8 >> k) & 1 == 1,
{
    assert((0xffu8 >> k) & 1 == 1) by (bit_vector)
        requires
            k < 8,
    ;
}

proof fn one_bit(x: u8, k: u8)
    ensures
        (x >> k) & 1 == 0 || (x >> k) & 1 == 1,
{
    assert((x >> k) & 1 == 0 || (x >> k) & 1 == 1) by (bit_vector);
}

/// A pixel's byte is one of its scanline's.
proof fn byte_is_in(ink: Ink, width: nat, block: nat)
    requires
        block < width,
    ensures
        1 <= byte_of(ink, block) <= ink.bytes(width),
{
}

/// What a scanline shows of a block is the darkest pixel drawn on it, or paper
/// where none was: a row is the union of what was drawn on it, and nothing else.
pub proof fn a_pixel_is_the_darkest_drawn(ink: Ink, width: nat, marks: Seq<Mark>, block: nat)
    requires
        marks_within(marks, width),
        block < width,
    ensures
        pixel(drawn_row(ink, width, marks), ink, block) == darkest(ink, marks, block),
    decreases marks.len(),
{
    byte_is_in(ink, width, block);
    if marks.len() == 0 {
        blank_bit((7 - block % 8) as u8);
    } else {
        let front = marks.drop_last();
        let before = drawn_row(ink, width, front);
        let (b, shade) = marks.last();
        assert(marks[marks.len() - 1].0 < width);
        assert forall|i: int| #![trigger front[i]] 0 <= i < front.len() implies front[i].0
            < width by {
            assert(marks[i].0 < width);
        }
        a_pixel_is_the_darkest_drawn(ink, width, front, block);
        drawn_row_len(ink, width, front);
        byte_is_in(ink, width, b as nat);
        if ink == Ink::Flat {
            let at = byte_of(ink, b as nat) as int;
            bit_cleared(before[at], (b % 8) as u8, (block % 8) as u8);
            one_bit(before[byte_of(ink, block) as int], (7 - block % 8) as u8);
            if b / 8 == block / 8 && b % 8 == block % 8 {
                assert(b == block);
            }
        }
    }
}

/// The row two bins of transactions would share is the union of their rows:
/// every pixel the darker of the two.
pub proof fn a_shared_row_is_the_union(ink: Ink, a: Seq<Mark>, b: Seq<Mark>, block: nat)
    ensures
        darkest(ink, a + b, block) == if darkest(ink, b, block) < darkest(ink, a, block) {
            darkest(ink, b, block)
        } else {
            darkest(ink, a, block)
        },
    decreases b.len(),
{
    darkest_is_no_lighter_than_paper(ink, a, block);
    if b.len() == 0 {
        assert(a + b =~= a);
    } else {
        assert((a + b).drop_last() =~= a + b.drop_last());
        a_shared_row_is_the_union(ink, a, b.drop_last(), block);
    }
}

proof fn darkest_is_no_lighter_than_paper(ink: Ink, marks: Seq<Mark>, block: nat)
    ensures
        darkest(ink, marks, block) <= ink.paper(),
    decreases marks.len(),
{
    if marks.len() > 0 {
        darkest_is_no_lighter_than_paper(ink, marks.drop_last(), block);
    }
}

/// A number in four bytes, the most significant first.
pub open spec fn be32(n: nat) -> Seq<u8> {
    seq![
        (n / 0x100_0000 % 0x100) as u8,
        (n / 0x1_0000 % 0x100) as u8,
        (n / 0x100 % 0x100) as u8,
        (n % 0x100) as u8,
    ]
}

/// One chunk of a PNG: its length, its four-byte name, its data, and a CRC-32
/// over the name and the data.
pub open spec fn chunk_bytes(name: Seq<u8>, data: Seq<u8>) -> Seq<u8> {
    be32(data.len()) + name + data + be32(crc32(name + data) as nat)
}

/// Chunks of one name, one after another.
pub open spec fn chunks(name: Seq<u8>, datas: Seq<Seq<u8>>) -> Seq<u8>
    decreases datas.len(),
{
    if datas.len() == 0 {
        Seq::empty()
    } else {
        chunks(name, datas.drop_last()) + chunk_bytes(name, datas.last())
    }
}

/// Pieces put end to end.
pub open spec fn end_to_end(pieces: Seq<Seq<u8>>) -> Seq<u8>
    decreases pieces.len(),
{
    if pieces.len() == 0 {
        Seq::empty()
    } else {
        end_to_end(pieces.drop_last()) + pieces.last()
    }
}

/// Data as it goes into chunks: one, unless that could not state its length, and
/// none for no data.
pub open spec fn in_pieces(data: Seq<u8>) -> Seq<Seq<u8>>
    decreases data.len(),
{
    if data.len() == 0 {
        Seq::empty()
    } else if data.len() <= u32::MAX {
        seq![data]
    } else {
        seq![data.take(u32::MAX as int)] + in_pieces(data.skip(u32::MAX as int))
    }
}

/// A file with data added to it as chunks named `IDAT`.
pub open spec fn with_data(file: Seq<u8>, data: Seq<u8>) -> Seq<u8> {
    file + chunks(idat(), in_pieces(data))
}

/// What there is of a file and what the compressor has gathered, once the latter
/// was sent if it is a chunk's worth.
pub open spec fn drained(file: Seq<u8>, gathered: Seq<u8>) -> (Seq<u8>, Seq<u8>) {
    if gathered.len() < IDAT {
        (file, gathered)
    } else {
        (with_data(file, gathered), Seq::empty())
    }
}

/// The eight bytes every PNG begins with.
pub open spec fn signature() -> Seq<u8> {
    seq![0x89u8, 0x50, 0x4e, 0x47, 0x0d, 0x0a, 0x1a, 0x0a]
}

/// The names of the chunks: `IHDR`, `PLTE`, `IDAT`, `IEND`.
pub open spec fn ihdr() -> Seq<u8> {
    seq![0x49u8, 0x48, 0x44, 0x52]
}

pub open spec fn plte() -> Seq<u8> {
    seq![0x50u8, 0x4c, 0x54, 0x45]
}

pub open spec fn idat() -> Seq<u8> {
    seq![0x49u8, 0x44, 0x41, 0x54]
}

pub open spec fn iend() -> Seq<u8> {
    seq![0x49u8, 0x45, 0x4e, 0x44]
}

/// Everything up to the first scanline: the signature, the size and the depth,
/// and the palette where pixels are read through one.
pub open spec fn front_matter(width: nat, height: nat, ink: Ink, palette: Seq<u8>) -> Seq<u8> {
    let first = signature() + chunk_bytes(
        ihdr(),
        be32(width) + be32(height) + seq![ink.bits(), ink.kind(), 0u8, 0u8, 0u8],
    );
    if ink == Ink::Palette {
        first + chunk_bytes(plte(), palette)
    } else {
        first
    }
}

/// A picture being drawn, as a mathematical value: the pixels of the row in
/// hand, how many transactions are in it, the scanlines done, and the first
/// block there is no column for.
pub struct Drawing {
    pub width: nat,
    pub height: nat,
    pub bin: nat,
    pub ink: Ink,
    pub marks: Seq<Mark>,
    pub pending: nat,
    pub lines: Seq<Seq<u8>>,
    pub escaped: Option<usize>,
}

impl Drawing {
    /// The row in hand as a scanline.
    pub open spec fn row(self) -> Seq<u8> {
        drawn_row(self.ink, self.width, self.marks)
    }

    /// The drawing with the row in hand closed and a blank one begun.
    pub open spec fn closed_row(self) -> Drawing {
        Drawing {
            marks: Seq::empty(),
            pending: 0,
            lines: self.lines.push(self.row()),
            ..self
        }
    }

    /// The drawing with a pixel drawn: a block there is no column for is
    /// remembered, the first one.
    pub open spec fn marked(self, block: usize, shade: u8) -> Drawing {
        if block >= self.width {
            Drawing {
                escaped: if self.escaped is None { Some(block) } else { self.escaped },
                ..self
            }
        } else {
            Drawing { marks: self.marks.push((block, shade)), ..self }
        }
    }

    /// The drawing with blank rows down to its last.
    pub open spec fn padded(self) -> Drawing
        decreases self.height - self.lines.len(),
    {
        if self.lines.len() >= self.height {
            self
        } else {
            self.closed_row().padded()
        }
    }
}

/// What went wrong with a picture.
#[derive(Clone, Copy, Debug, PartialEq, Eq, Structural)]
pub enum FaultKind {
    /// The picture that was asked for cannot be.
    Unfit,
    /// The records do not fit the picture.
    InvalidData,
    /// The compressor failed.
    Deflate,
}

/// What went wrong with a picture, and in words.
#[derive(Debug)]
pub struct Fault {
    pub kind: FaultKind,
    pub message: String,
}

pub open spec fn no_picture() -> Seq<char> {
    "an image needs a column and a row, and this one has none"@
}

pub open spec fn too_large(width: usize, height: usize) -> Seq<char> {
    "a "@ + dec(width as nat) + " x "@ + dec(height as nat)
        + " picture is larger than a PNG can say it is"@
}

pub open spec fn no_column(block: usize, width: nat) -> Seq<char> {
    "block "@ + dec(block as nat) + " has no column in a "@ + dec(width)
        + "-column picture; rerun with --blocks "@ + dec(block as nat + 1) + " or more"@
}

pub open spec fn no_row(height: nat) -> Seq<char> {
    "the picture was opened "@ + dec(height)
        + " rows tall and the records have filled it; the count they were measured by is not the count they are arriving at"@
}

/// The drawing once it is closed: a row that was begun is a row, and blank rows
/// follow down to the last.
pub open spec fn finished(d: Drawing) -> Drawing {
    if d.pending > 0 {
        d.closed_row().padded()
    } else {
        d.padded()
    }
}

/// Whether the encoder takes every one of these scanlines past the first `done`, one
/// after another.
pub open spec fn rows_accepted(lines: Seq<Seq<u8>>, done: nat) -> bool {
    forall|k: int| done < k <= lines.len() ==> accepted(true, #[trigger] lines.take(k))
}

/// A file is a PNG of these scanlines: the front matter, chunks of data, and the
/// end; and a decoder that puts the data end to end and inflates it has the
/// scanlines back, end to end.
pub open spec fn is_picture(file: Seq<u8>, front: Seq<u8>, lines: Seq<Seq<u8>>) -> bool {
    exists|pieces: Seq<Seq<u8>>|
        {
            &&& file == front + chunks(idat(), pieces) + chunk_bytes(iend(), Seq::empty())
            &&& inflated(#[trigger] end_to_end(pieces)) == end_to_end(lines)
        }
}

/// Appends a number in four bytes, the most significant first.
pub(crate) fn push_be32(out: &mut Vec<u8>, n: u32)
    ensures
        final(out)@ == old(out)@ + be32(n as nat),
{
    out.push((n / 0x100_0000) as u8);
    out.push((n / 0x1_0000 % 0x100) as u8);
    out.push((n / 0x100 % 0x100) as u8);
    out.push((n % 0x100) as u8);
    assert(out@ =~= old(out)@ + be32(n as nat));
}

/// Appends one PNG chunk.
pub(crate) fn chunk(out: &mut Vec<u8>, name: [u8; 4], data: &[u8])
    requires
        data@.len() <= u32::MAX,
    ensures
        final(out)@ == old(out)@ + chunk_bytes(name@, data@),
{
    push_be32(out, data.len() as u32);
    out.extend_from_slice(name.as_slice());
    out.extend_from_slice(data);
    let sum: u32 = checksum(name.as_slice(), data);
    push_be32(out, sum);
    assert(out@ =~= old(out)@ + chunk_bytes(name@, data@));
}

/// Appends data as chunks named `IDAT`, one unless a chunk could not state its
/// length, and none for no data.
pub(crate) fn put_data(out: &mut Vec<u8>, data: &[u8]) -> (pieces: Ghost<Seq<Seq<u8>>>)
    ensures
        final(out)@ == with_data(old(out)@, data@),
        pieces@ == in_pieces(data@),
        end_to_end(pieces@) == data@,
{
    let ghost mut pieces: Seq<Seq<u8>> = Seq::empty();
    let n: usize = data.len();
    let mut at: usize = 0;
    assert(out@ =~= old(out)@ + chunks(idat(), pieces));
    proof {
        assert(data@.skip(0) =~= data@);
        assert(pieces + in_pieces(data@) =~= in_pieces(data@));
    }
    while at < n
        invariant
            at <= n == data@.len(),
            out@ == old(out)@ + chunks(idat(), pieces),
            end_to_end(pieces) == data@.take(at as int),
            pieces + in_pieces(data@.skip(at as int)) == in_pieces(data@),
        decreases n - at,
    {
        let left: usize = n - at;
        let len: usize = if left > u32::MAX as usize { u32::MAX as usize } else { left };
        let piece = vstd::slice::slice_subrange(data, at, at + len);
        let name: [u8; 4] = [0x49, 0x44, 0x41, 0x54];
        assert(name@ =~= idat());
        let ghost held = out@;
        chunk(out, name, piece);
        proof {
            let more = pieces.push(piece@);
            assert(more.drop_last() =~= pieces);
            assert(out@ =~= old(out)@ + chunks(idat(), more));
            assert(end_to_end(more) =~= data@.take(at + len));
            let rest = data@.skip(at as int);
            assert(piece@ =~= rest.take(len as int));
            assert(data@.skip(at + len) =~= rest.skip(len as int));
            if left <= u32::MAX {
                assert(rest.take(len as int) =~= rest);
                assert(rest.skip(len as int) =~= Seq::<u8>::empty());
                assert(in_pieces(rest) == seq![rest]);
            }
            assert(more + in_pieces(data@.skip(at + len)) =~= pieces + in_pieces(rest));
            pieces = more;
        }
        at += len;
    }
    assert(data@.take(n as int) =~= data@);
    assert(data@.skip(n as int) =~= Seq::<u8>::empty());
    assert(pieces + in_pieces(data@.skip(n as int)) =~= pieces);
    Ghost(pieces)
}

/// A picture being drawn a transaction at a time.
///
/// A transaction is drawn by [`Writer::set`], once per block in its colour, and
/// closed by [`Writer::end_transaction`]; every so many of those make a row, and
/// a row that closes goes to the compressor. What there is of the file is handed
/// out by [`Writer::take`] and, at the end, by [`Writer::finish`].
pub struct Writer {
    out: Vec<u8>,
    zip: Deflater,
    width: usize,
    height: usize,
    bin: usize,
    ink: Ink,
    /// The row being drawn, as the compressor will take it. All paper outside
    /// the first `dirty` bytes of samples at all times, which is what lets a
    /// closed row be blanked by clearing a prefix.
    row: Vec<u8>,
    dirty: usize,
    pending: usize,
    rows: usize,
    escaped: Option<usize>,
    marks: Ghost<Seq<Mark>>,
    lines: Ghost<Seq<Seq<u8>>>,
    front: Ghost<Seq<u8>>,
    pieces: Ghost<Seq<Seq<u8>>>,
    sent: Ghost<Seq<u8>>,
}

impl Writer {
    /// What is drawn.
    pub closed spec fn drawing(&self) -> Drawing {
        Drawing {
            width: self.width as nat,
            height: self.height as nat,
            bin: self.bin as nat,
            ink: self.ink,
            marks: self.marks@,
            pending: self.pending as nat,
            lines: self.lines@,
            escaped: self.escaped,
        }
    }

    /// What has been handed out of the file.
    pub closed spec fn sent(&self) -> Seq<u8> {
        self.sent@
    }

    /// What there is of the file and was not handed out.
    pub closed spec fn ready(&self) -> Seq<u8> {
        self.out@
    }

    /// What came out of the compressor and is in no chunk yet.
    pub closed spec fn gathered(&self) -> Seq<u8> {
        held(self.zip)
    }

    /// Everything of the file before the first scanline.
    pub closed spec fn front(&self) -> Seq<u8> {
        self.front@
    }

    /// What holds of every picture being drawn: the row in hand is what was
    /// drawn on it, paper past its dirty prefix; the file so far is the front
    /// matter and chunks of what came out of the compressor; and the compressor
    /// was given the scanlines, end to end.
    pub closed spec fn sound(&self) -> bool {
        &&& self.row@ == drawn_row(self.ink, self.width as nat, self.marks@)
        &&& self.row@.len() == 1 + self.ink.bytes(self.width as nat)
        &&& self.dirty < self.row@.len()
        &&& self.row@[0] == NO_FILTER
        &&& forall|i: int|
            1 + self.dirty <= i < self.row@.len() ==> #[trigger] self.row@[i] == BLANK
        &&& marks_within(self.marks@, self.width as nat)
        &&& self.pending < self.bin
        &&& self.rows == self.lines@.len() <= self.height
        &&& self.sent@ + self.out@ == self.front@ + chunks(idat(), self.pieces@)
        &&& end_to_end(self.pieces@) + held(self.zip) == emitted(self.zip)
        &&& fed(self.zip) == end_to_end(self.lines@)
        &&& writes(self.zip) == self.lines@
        &&& is_best(self.zip)
    }

    /// Opens a picture `width` columns by `height` rows, with `bin` transactions
    /// to the row and `ink` in its pixels, and writes everything up to the first
    /// scanline. `palette` is what pixels are read through, three bytes a
    /// colour, where the ink reads them through one.
    pub fn new(width: usize, height: usize, bin: usize, ink: Ink, palette: &Vec<u8>) -> (r: Result<
        Writer,
        Fault,
    >)
        requires
            bin > 0,
            palette@.len() <= u32::MAX,
        ensures
            match r {
                Ok(w) => {
                    &&& 0 < width <= u32::MAX
                    &&& 0 < height <= u32::MAX
                    &&& w.drawing() == (Drawing {
                        width: width as nat,
                        height: height as nat,
                        bin: bin as nat,
                        ink,
                        marks: Seq::empty(),
                        pending: 0,
                        lines: Seq::empty(),
                        escaped: None,
                    })
                    &&& w.sent() == Seq::<u8>::empty()
                    &&& w.front() == front_matter(width as nat, height as nat, ink, palette@)
                    &&& w.ready() == w.front()
                    &&& w.gathered() == Seq::<u8>::empty()
                    &&& w.sound()
                },
                Err(f) => {
                    &&& f.kind == FaultKind::Unfit
                    &&& if width == 0 || height == 0 {
                        f.message@ == no_picture()
                    } else {
                        (width > u32::MAX || height > u32::MAX) && f.message@ == too_large(
                            width,
                            height,
                        )
                    }
                },
            },
    {
        if width == 0 || height == 0 {
            return Err(
                Fault {
                    kind: FaultKind::Unfit,
                    message: "an image needs a column and a row, and this one has none".to_owned(),
                },
            );
        }
        if width > u32::MAX as usize || height > u32::MAX as usize {
            let mut s = "a ".to_owned();
            push_dec(&mut s, width as u64);
            s.append(" x ");
            push_dec(&mut s, height as u64);
            s.append(" picture is larger than a PNG can say it is");
            return Err(Fault { kind: FaultKind::Unfit, message: s });
        }
        let mut out: Vec<u8> = Vec::new();
        let magic: [u8; 8] = [0x89, 0x50, 0x4e, 0x47, 0x0d, 0x0a, 0x1a, 0x0a];
        out.extend_from_slice(magic.as_slice());
        assert(out@ =~= signature());
        let mut size: Vec<u8> = Vec::new();
        push_be32(&mut size, width as u32);
        push_be32(&mut size, height as u32);
        size.push(ink.depth());
        size.push(ink.colour_type());
        size.push(0);
        size.push(0);
        size.push(0);
        assert(size@ =~= be32(width as nat) + be32(height as nat) + seq![
            ink.bits(),
            ink.kind(),
            0u8,
            0u8,
            0u8,
        ]);
        let header: [u8; 4] = [0x49, 0x48, 0x44, 0x52];
        assert(header@ =~= ihdr());
        chunk(&mut out, header, size.as_slice());
        if ink == Ink::Palette {
            let colours: [u8; 4] = [0x50, 0x4c, 0x54, 0x45];
            assert(colours@ =~= plte());
            chunk(&mut out, colours, palette.as_slice());
        }
        let stride: usize = ink.stride(width);
        let mut row: Vec<u8> = Vec::new();
        row.push(NO_FILTER);
        let mut i: usize = 0;
        while i < stride
            invariant
                i <= stride,
                row@.len() == 1 + i,
                row@[0] == NO_FILTER,
                forall|k: int| 1 <= k < row@.len() ==> #[trigger] row@[k] == BLANK,
            decreases stride - i,
        {
            row.push(BLANK);
            i += 1;
        }
        let zip = Deflater::best();
        let ghost front = out@;
        let w = Writer {
            out,
            zip,
            width,
            height,
            bin,
            ink,
            row,
            dirty: 0,
            pending: 0,
            rows: 0,
            escaped: None,
            marks: Ghost(Seq::empty()),
            lines: Ghost(Seq::empty()),
            front: Ghost(front),
            pieces: Ghost(Seq::empty()),
            sent: Ghost(Seq::empty()),
        };
        proof {
            assert(w.row@ =~= blank_row(ink, width as nat));
            assert(w.sent@ + w.out@ =~= w.front@ + chunks(idat(), w.pieces@));
            assert(end_to_end(w.pieces@) + held(w.zip) =~= emitted(w.zip));
            assert(fed(w.zip) =~= end_to_end(w.lines@));
        }
        Ok(w)
    }

    /// Inks the pixel for `block` in the row being built with so much ink, 255
    /// being all of it.
    ///
    /// A pixel a bin has already drawn keeps the darker of the two, which is what
    /// makes a row the union of its transactions. A block the picture has no
    /// column for is remembered, and [`Writer::end_transaction`] names the first
    /// of them.
    pub fn set(&mut self, block: usize, shade: u8)
        requires
            old(self).sound(),
        ensures
            final(self).sound(),
            final(self).drawing() == old(self).drawing().marked(block, shade),
            final(self).sent() == old(self).sent(),
            final(self).ready() == old(self).ready(),
            final(self).gathered() == old(self).gathered(),
            final(self).front() == old(self).front(),
    {
        if block >= self.width {
            if self.escaped.is_none() {
                self.escaped = Some(block);
            }
            return;
        }
        let ghost before = self.row@;
        let ghost marks = self.marks@.push((block, shade));
        proof {
            byte_is_in(self.ink, self.width as nat, block as nat);
            assert(marks.drop_last() =~= self.marks@);
            assert forall|i: int| #![trigger marks[i]] 0 <= i < marks.len() implies marks[i].0
                < self.width by {
                if i < self.marks@.len() {
                    assert(self.marks@[i].0 < self.width);
                }
            }
        }
        let byte: usize = match self.ink {
            Ink::Flat => {
                let byte: usize = block / 8;
                let bit: u8 = (block % 8) as u8;
                let old_byte: u8 = self.row[1 + byte];
                self.row[1 + byte] = old_byte & !(0x80u8 >> bit);
                byte
            },
            Ink::Weighted | Ink::Palette => {
                let sample: u8 = PAPER_8 - shade;
                if sample < self.row[1 + block] {
                    self.row[1 + block] = sample;
                }
                block
            },
        };
        if byte >= self.dirty {
            self.dirty = byte + 1;
        }
        self.marks = Ghost(marks);
        proof {
            assert(self.row@ =~= with_mark(before, self.ink, (block, shade)));
        }
    }

    /// Hands the row being built to the compressor, blanks it, and starts the
    /// next.
    fn end_row(&mut self) -> (r: Result<(), Fault>)
        requires
            old(self).sound_but_for_pending(),
        ensures
            match r {
                Ok(()) => {
                    &&& old(self).drawing().lines.len() < old(self).drawing().height
                    &&& final(self).sound()
                    &&& final(self).drawing() == old(self).drawing().closed_row()
                    &&& final(self).sent() == old(self).sent()
                    &&& final(self).front() == old(self).front()
                    &&& exists|more: Seq<u8>|
                        (final(self).ready(), final(self).gathered()) == #[trigger] drained(
                            old(self).ready(),
                            old(self).gathered() + more,
                        )
                },
                Err(f) => {
                    ||| f.kind == FaultKind::Deflate
                    ||| {
                        &&& f.kind == FaultKind::InvalidData
                        &&& old(self).drawing().lines.len() == old(self).drawing().height
                        &&& f.message@ == no_row(old(self).drawing().height)
                    }
                },
            },
            old(self).drawing().lines.len() == old(self).drawing().height ==> r is Err
                && r->Err_0.kind == FaultKind::InvalidData && *final(self) == *old(self),
            old(self).drawing().lines.len() < old(self).drawing().height ==> (r is Ok <==> accepted(
                true,
                old(self).drawing().lines.push(old(self).drawing().row()),
            )),
    {
        if self.rows == self.height {
            let mut s = "the picture was opened ".to_owned();
            push_dec(&mut s, self.height as u64);
            s.append(
                " rows tall and the records have filled it; the count they were measured by is not the count they are arriving at",
            );
            return Err(Fault { kind: FaultKind::InvalidData, message: s });
        }
        let ghost zip0 = self.zip;
        let ghost line = self.row@;
        match self.zip.write(self.row.as_slice()) {
            Ok(()) => {},
            Err(message) => {
                return Err(Fault { kind: FaultKind::Deflate, message });
            },
        }
        let ghost lines = self.lines@.push(line);
        let ghost came = held(self.zip).skip(held(zip0).len() as int);
        proof {
            assert(lines.drop_last() =~= self.lines@);
            assert(held(self.zip) =~= held(zip0) + came);
            assert(end_to_end(self.pieces@) + held(self.zip) =~= emitted(self.zip));
        }
        self.lines = Ghost(lines);
        let mut i: usize = 0;
        while i < self.dirty
            invariant
                i <= self.dirty < self.row@.len() == line.len(),
                self.row@[0] == NO_FILTER,
                forall|k: int| 1 <= k <= i ==> #[trigger] self.row@[k] == BLANK,
                forall|k: int|
                    1 + self.dirty <= k < self.row@.len() ==> #[trigger] self.row@[k] == BLANK,
                self.dirty == old(self).dirty,
                self.out == old(self).out,
                self.width == old(self).width,
                self.height == old(self).height,
                self.bin == old(self).bin,
                self.ink == old(self).ink,
                self.pending == old(self).pending,
                self.rows == old(self).rows,
                self.escaped == old(self).escaped,
                self.marks == old(self).marks,
                self.lines@ == lines,
                self.front == old(self).front,
                self.pieces == old(self).pieces,
                self.sent == old(self).sent,
                fed(self.zip) == end_to_end(lines),
                end_to_end(self.pieces@) + held(self.zip) == emitted(self.zip),
                held(self.zip) == held(zip0) + came,
                writes(self.zip) == lines,
                is_best(self.zip),
            decreases self.dirty - i,
        {
            self.row[1 + i] = BLANK;
            i += 1;
        }
        self.dirty = 0;
        self.pending = 0;
        self.rows = self.rows + 1;
        self.marks = Ghost(Seq::empty());
        proof {
            assert(self.row@ =~= blank_row(self.ink, self.width as nat));
        }
        self.drain();
        assert((self.ready(), self.gathered()) == drained(
            old(self).ready(),
            old(self).gathered() + came,
        ));
        Ok(())
    }

    /// Sends what the compressor has produced, if there is a chunk's worth of it.
    fn drain(&mut self)
        requires
            old(self).sound(),
        ensures
            final(self).sound(),
            final(self).drawing() == old(self).drawing(),
            final(self).sent() == old(self).sent(),
            final(self).front() == old(self).front(),
            (final(self).ready(), final(self).gathered()) == drained(
                old(self).ready(),
                old(self).gathered(),
            ),
    {
        let gathered: usize = self.zip.pending().len();
        if gathered < IDAT {
            return;
        }
        self.flush();
    }

    /// Sends what the compressor has produced.
    fn flush(&mut self)
        requires
            old(self).sound(),
        ensures
            final(self).sound(),
            final(self).drawing() == old(self).drawing(),
            final(self).sent() == old(self).sent(),
            final(self).front() == old(self).front(),
            final(self).ready() == with_data(old(self).ready(), old(self).gathered()),
            final(self).gathered() == Seq::<u8>::empty(),
    {
        let ghost out0 = self.out@;
        let Ghost(more) = put_data(&mut self.out, self.zip.pending().as_slice());
        self.zip.clear();
        let ghost pieces = self.pieces@ + more;
        proof {
            chunks_concat(idat(), self.pieces@, more);
            end_to_end_concat(self.pieces@, more);
            assert(self.sent@ + self.out@ =~= (self.sent@ + out0) + chunks(idat(), more));
            assert(self.sent@ + self.out@ =~= self.front@ + chunks(idat(), pieces));
            assert(end_to_end(pieces) + held(self.zip) =~= emitted(self.zip));
        }
        self.pieces = Ghost(pieces);
    }

    /// Finishes one transaction, closing the row if it completes a bin.
    pub fn end_transaction(&mut self) -> (r: Result<(), Fault>)
        requires
            old(self).sound(),
        ensures
            ({
                let d = old(self).drawing();
                let one_more = Drawing { pending: d.pending + 1, ..d };
                let closes = d.pending + 1 == d.bin;
                &&& r is Ok <==> {
                    &&& d.escaped is None
                    &&& closes ==> d.lines.len() < d.height && accepted(
                        true,
                        d.lines.push(d.row()),
                    )
                }
                &&& match r {
                    Ok(()) => {
                        &&& d.escaped is None
                        &&& closes ==> d.lines.len() < d.height
                        &&& final(self).sound()
                        &&& final(self).drawing() == if closes {
                            one_more.closed_row()
                        } else {
                            one_more
                        }
                        &&& final(self).sent() == old(self).sent()
                        &&& final(self).front() == old(self).front()
                        &&& closes ==> exists|more: Seq<u8>|
                            (final(self).ready(), final(self).gathered()) == #[trigger] drained(
                                old(self).ready(),
                                old(self).gathered() + more,
                            )
                        &&& !closes ==> final(self).ready() == old(self).ready()
                            && final(self).gathered() == old(self).gathered()
                    },
                    Err(f) => {
                        ||| {
                            &&& f.kind == FaultKind::InvalidData
                            &&& d.escaped matches Some(block) && f.message@ == no_column(
                                block,
                                d.width,
                            )
                            &&& *final(self) == *old(self)
                        }
                        ||| {
                            &&& f.kind == FaultKind::InvalidData
                            &&& d.escaped is None
                            &&& closes && d.lines.len() == d.height
                            &&& f.message@ == no_row(d.height)
                            &&& final(self).drawing() == one_more
                            &&& final(self).sent() == old(self).sent()
                            &&& final(self).ready() == old(self).ready()
                            &&& final(self).gathered() == old(self).gathered()
                            &&& final(self).front() == old(self).front()
                        }
                        ||| {
                            &&& f.kind == FaultKind::Deflate
                            &&& d.escaped is None
                            &&& closes && d.lines.len() < d.height
                        }
                    },
                }
            }),
    {
        if let Some(block) = self.escaped {
            let mut s = "block ".to_owned();
            push_dec(&mut s, block as u64);
            s.append(" has no column in a ");
            push_dec(&mut s, self.width as u64);
            s.append("-column picture; rerun with --blocks ");
            push_wide(&mut s, block as u128 + 1);
            s.append(" or more");
            return Err(Fault { kind: FaultKind::InvalidData, message: s });
        }
        self.pending = self.pending + 1;
        assert(self.ready() == old(self).ready());
        assert(self.gathered() == old(self).gathered());
        if self.pending == self.bin {
            return self.end_row();
        }
        Ok(())
    }

    /// `(columns, rows)` as the picture was opened for.
    pub fn dimensions(&self) -> (size: (usize, usize))
        ensures
            size.0 == self.drawing().width,
            size.1 == self.drawing().height,
    {
        (self.width, self.height)
    }

    /// Hands out what there is of the file and was not handed out yet.
    pub fn take(&mut self) -> (bytes: Vec<u8>)
        requires
            old(self).sound(),
        ensures
            final(self).sound(),
            final(self).drawing() == old(self).drawing(),
            bytes@ == old(self).ready(),
            final(self).sent() == old(self).sent() + bytes@,
            final(self).ready() == Seq::<u8>::empty(),
            final(self).gathered() == old(self).gathered(),
            final(self).front() == old(self).front(),
    {
        let mut bytes: Vec<u8> = Vec::new();
        std::mem::swap(&mut bytes, &mut self.out);
        self.sent = Ghost(self.sent@ + bytes@);
        assert(self.sent@ + self.out@ =~= old(self).sent@ + old(self).out@);
        bytes
    }

    /// Closes the picture: finishes the row in hand, pads out to the promised
    /// height, ends the compressed stream and hands out the rest of the file.
    pub fn finish(self) -> (r: Result<Vec<u8>, Fault>)
        requires
            self.sound(),
        ensures
            ({
                let d = self.drawing();
                &&& r is Ok <==> {
                    &&& d.pending > 0 ==> d.lines.len() < d.height
                    &&& rows_accepted(finished(d).lines, d.lines.len())
                    &&& ended(true, finished(d).lines)
                }
                &&& match r {
                    Ok(bytes) => {
                        &&& d.pending > 0 ==> d.lines.len() < d.height
                        &&& is_picture(
                            self.sent() + bytes@,
                            self.front(),
                            finished(d).lines,
                        )
                    },
                    Err(f) => {
                        ||| {
                            &&& f.kind == FaultKind::InvalidData
                            &&& d.pending > 0 && d.lines.len() == d.height
                            &&& f.message@ == no_row(d.height)
                        }
                        ||| {
                            &&& f.kind == FaultKind::Deflate
                            &&& !(d.pending > 0 && d.lines.len() == d.height)
                        }
                    },
                }
            }),
    {
        let ghost d = self.drawing();
        let ghost whole = finished(d).lines;
        let mut w = self;
        if w.pending > 0 {
            proof {
                if d.lines.len() < d.height {
                    padding_keeps(d.closed_row());
                    assert(whole.take(d.lines.len() as int + 1) == d.lines.push(d.row()));
                }
            }
            match w.end_row() {
                Ok(()) => {},
                Err(f) => {
                    return Err(f);
                },
            }
        }
        let ghost closed = w.drawing();
        while w.rows < w.height
            invariant
                w.sound(),
                w.sent() == self.sent(),
                w.front() == self.front(),
                closed.padded() == w.drawing().padded(),
                closed.padded() == finished(d),
                whole == finished(d).lines,
                d.lines.len() <= w.drawing().lines.len(),
                forall|k: int|
                    d.lines.len() < k <= w.drawing().lines.len() ==> accepted(
                        true,
                        #[trigger] whole.take(k),
                    ),
                d == self.drawing(),
                !(d.pending > 0 && d.lines.len() == d.height),
            decreases w.height - w.rows,
        {
            let ghost before = w.drawing();
            proof {
                padding_keeps(before.closed_row());
                assert(whole.take(before.lines.len() as int + 1) == before.lines.push(before.row()));
            }
            match w.end_row() {
                Ok(()) => {},
                Err(f) => {
                    return Err(f);
                },
            }
        }
        proof {
            padding_keeps(w.drawing());
            assert(whole == w.drawing().lines);
            assert(rows_accepted(whole, d.lines.len()));
        }
        let Writer { out, zip, front: Ghost(front), pieces: Ghost(pieces), sent: Ghost(sent), lines: Ghost(lines), .. } = w;
        let mut file = out;
        let ghost out0 = file@;
        let ghost zip0 = zip;
        let rest = match zip.finish() {
            Ok(bytes) => bytes,
            Err(message) => {
                return Err(Fault { kind: FaultKind::Deflate, message });
            },
        };
        let Ghost(more) = put_data(&mut file, rest.as_slice());
        let ghost all = pieces + more;
        let ghost body = file@;
        let end: [u8; 4] = [0x49, 0x45, 0x4e, 0x44];
        assert(end@ =~= iend());
        let nothing: Vec<u8> = Vec::new();
        chunk(&mut file, end, nothing.as_slice());
        proof {
            assert(nothing@ =~= Seq::<u8>::empty());
            chunks_concat(idat(), pieces, more);
            end_to_end_concat(pieces, more);
            let tail = rest@.skip(held(zip0).len() as int);
            assert(rest@ =~= held(zip0) + tail);
            assert(end_to_end(all) =~= emitted(zip0) + tail);
            assert(sent + file@ =~= (sent + out0) + chunks(idat(), more) + chunk_bytes(
                iend(),
                Seq::empty(),
            ));
            assert(sent + file@ =~= front + chunks(idat(), all) + chunk_bytes(
                iend(),
                Seq::empty(),
            ));
            assert(inflated(end_to_end(all)) == end_to_end(lines));
        }
        Ok(file)
    }

    /// All that holds of a picture being drawn but that its row has room for
    /// one transaction more.
    pub closed spec fn sound_but_for_pending(&self) -> bool {
        Writer { pending: 0, ..*self }.sound()
    }
}

proof fn chunks_concat(name: Seq<u8>, a: Seq<Seq<u8>>, b: Seq<Seq<u8>>)
    ensures
        chunks(name, a + b) == chunks(name, a) + chunks(name, b),
    decreases b.len(),
{
    if b.len() == 0 {
        assert(a + b =~= a);
        assert(chunks(name, a) + Seq::empty() =~= chunks(name, a));
    } else {
        assert((a + b).drop_last() =~= a + b.drop_last());
        chunks_concat(name, a, b.drop_last());
        assert(chunks(name, a + b) =~= chunks(name, a) + chunks(name, b));
    }
}

proof fn end_to_end_concat(a: Seq<Seq<u8>>, b: Seq<Seq<u8>>)
    ensures
        end_to_end(a + b) == end_to_end(a) + end_to_end(b),
    decreases b.len(),
{
    if b.len() == 0 {
        assert(a + b =~= a);
        assert(end_to_end(a) + Seq::empty() =~= end_to_end(a));
    } else {
        assert((a + b).drop_last() =~= a + b.drop_last());
        end_to_end_concat(a, b.drop_last());
        assert(end_to_end(a + b) =~= end_to_end(a) + end_to_end(b));
    }
}

proof fn padding_keeps(d: Drawing)
    requires
        d.lines.len() <= d.height,
    ensures
        d.padded().lines.len() == d.height,
        d.padded().lines.take(d.lines.len() as int) == d.lines,
    decreases d.height - d.lines.len(),
{
    if d.lines.len() < d.height {
        let next = d.closed_row();
        padding_keeps(next);
        let end = d.padded().lines;
        assert(end.take(d.lines.len() as int) =~= end.take(next.lines.len() as int).drop_last());
        assert(next.lines.drop_last() =~= d.lines);
    } else {
        assert(d.lines.take(d.lines.len() as int) =~= d.lines);
    }
}

proof fn padding_is_blank(d: Drawing)
    requires
        d.lines.len() <= d.height,
        d.marks.len() == 0,
    ensures
        d.padded().lines.len() == d.height,
        d.padded().lines.take(d.lines.len() as int) == d.lines,
        forall|r: int|
            d.lines.len() <= r < d.height ==> #[trigger] d.padded().lines[r] == drawn_row(
                d.ink,
                d.width,
                Seq::empty(),
            ),
    decreases d.height - d.lines.len(),
{
    if d.lines.len() < d.height {
        let next = d.closed_row();
        padding_is_blank(next);
        let end = d.padded().lines;
        assert(d.marks =~= Seq::empty());
        assert(end.take(next.lines.len() as int) == next.lines);
        assert forall|r: int| 0 <= r < next.lines.len() implies #[trigger] end[r]
            == next.lines[r] by {
            assert(end.take(next.lines.len() as int)[r] == next.lines[r]);
        }
        assert(end.take(d.lines.len() as int) =~= d.lines);
    } else {
        assert(d.lines.take(d.lines.len() as int) =~= d.lines);
    }
}

/// A finished picture has as many rows as were promised: those that were drawn, in
/// order, the row in hand if there is one, and blank ones after them.
pub proof fn a_finished_picture_has_every_row(d: Drawing)
    requires
        d.lines.len() <= d.height,
        d.pending > 0 ==> d.lines.len() < d.height,
        d.pending == 0 ==> d.marks.len() == 0,
    ensures
        finished(d).lines.len() == d.height,
        finished(d).lines.take(d.lines.len() as int) == d.lines,
        d.pending > 0 ==> finished(d).lines[d.lines.len() as int] == d.row(),
        forall|r: int|
            d.lines.len() + (if d.pending > 0 {
                1int
            } else {
                0
            }) <= r < d.height ==> #[trigger] finished(d).lines[r] == drawn_row(
                d.ink,
                d.width,
                Seq::empty(),
            ),
{
    if d.pending > 0 {
        let closed = d.closed_row();
        padding_is_blank(closed);
        let end = finished(d).lines;
        assert(end.take(closed.lines.len() as int) == closed.lines);
        assert forall|r: int| 0 <= r < closed.lines.len() implies #[trigger] end[r]
            == closed.lines[r] by {
            assert(end.take(closed.lines.len() as int)[r] == closed.lines[r]);
        }
        assert(end.take(d.lines.len() as int) =~= d.lines);
    } else {
        padding_is_blank(d);
    }
}

} // verus!
