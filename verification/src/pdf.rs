//! A page of vector ink, written by hand: a header, four objects, a
//! cross-reference table, and a deflated content stream.
//!
//! A content stream is a program for a very small machine: operands, then an
//! operator. Numbers come to it spelled with two decimals, and the digits that
//! say nothing are not written.

use vstd::prelude::*;
use vstd::string::*;
use vstd::utf8::encode_utf8;

use crate::text::{ascii, dec, padded, push_int, push_padded};
use crate::zip::{accepted, emitted, ended, fed, held, inflated, writes, Deflater};

verus! {

/// Text without the `c`s at its end.
pub open spec fn trimmed(s: Seq<char>, c: char) -> Seq<char>
    decreases s.len(),
{
    if s.len() > 0 && s.last() == c {
        trimmed(s.drop_last(), c)
    } else {
        s
    }
}

/// A number without the digits that say nothing: no zeros at the end of its
/// decimals, no point with none after it, and no minus zero.
pub open spec fn short(fixed: Seq<char>) -> Seq<char> {
    let s = trimmed(trimmed(fixed, '0'), '.');
    if s.len() == 0 || s == seq!['-'] || s == seq!['-', '0'] {
        seq!['0']
    } else {
        s
    }
}

/// The length of text without the `c`s at its end.
fn trim(s: &str, from: usize, c: char) -> (len: usize)
    requires
        from <= s@.len(),
    ensures
        len <= from,
        s@.take(len as int) == trimmed(s@.take(from as int), c),
{
    let mut len: usize = from;
    while len > 0 && s.get_char(len - 1) == c
        invariant
            len <= from <= s@.len(),
            trimmed(s@.take(len as int), c) == trimmed(s@.take(from as int), c),
        decreases len,
    {
        assert(s@.take(len as int).drop_last() =~= s@.take(len - 1));
        len -= 1;
    }
    len
}

/// A number spelled with two decimals, without the digits that say nothing:
/// `3` and not `3.00`, `0.5` and not `0.50`.
pub fn num(fixed: &str) -> (s: String)
    ensures
        s@ == short(fixed@),
{
    let whole: usize = fixed.unicode_len();
    assert(fixed@.take(whole as int) =~= fixed@);
    let zeros: usize = trim(fixed, whole, '0');
    let len: usize = trim(fixed, zeros, '.');
    let ghost kept = fixed@.take(len as int);
    let none = len == 0 || (len == 1 && fixed.get_char(0) == '-') || (len == 2 && fixed.get_char(0)
        == '-' && fixed.get_char(1) == '0');
    proof {
        if kept == seq!['-'] {
            assert(kept[0] == '-');
        }
        if kept == seq!['-', '0'] {
            assert(kept[0] == '-' && kept[1] == '0');
        }
        if len == 1 && fixed@[0] == '-' {
            assert(kept =~= seq!['-']);
        }
        if len == 2 && fixed@[0] == '-' && fixed@[1] == '0' {
            assert(kept =~= seq!['-', '0']);
        }
    }
    let mut s = String::new();
    if none {
        s.push('0');
        assert(s@ =~= seq!['0']);
        return s;
    }
    let mut i: usize = 0;
    while i < len
        invariant
            i <= len <= fixed@.len(),
            kept == fixed@.take(len as int),
            s@ == fixed@.take(i as int),
        decreases len - i,
    {
        s.push(fixed.get_char(i));
        assert(s@ =~= fixed@.take(i + 1));
        i += 1;
    }
    s
}

/// Text as a PDF string holds it: a backslash before a backslash or a
/// parenthesis.
pub open spec fn escaped(s: Seq<char>) -> Seq<char>
    decreases s.len(),
{
    if s.len() == 0 {
        Seq::empty()
    } else {
        let front = escaped(s.drop_last());
        let c = s.last();
        if c == '\\' || c == '(' || c == ')' {
            front.push('\\').push(c)
        } else {
            front.push(c)
        }
    }
}

/// One page being drawn: its size, and the content stream so far.
pub struct Page {
    width: String,
    height: String,
    ops: String,
}

/// Numbers with a space between each two.
pub open spec fn spaced(numbers: Seq<Seq<char>>) -> Seq<char>
    decreases numbers.len(),
{
    if numbers.len() == 0 {
        Seq::empty()
    } else if numbers.len() == 1 {
        short(numbers[0])
    } else {
        spaced(numbers.drop_last()) + " "@ + short(numbers.last())
    }
}

/// The operators that begin at the first number of a circle's path: a start,
/// four curves of three points each, and the close.
pub open spec fn circle_path(p: Seq<Seq<char>>) -> Seq<char> {
    spaced(p.subrange(0, 2)) + " m "@ + spaced(p.subrange(2, 8)) + " c "@ + spaced(
        p.subrange(8, 14),
    ) + " c "@ + spaced(p.subrange(14, 20)) + " c "@ + spaced(p.subrange(20, 26)) + " c h\n"@
}

pub open spec fn text_views(texts: Seq<String>) -> Seq<Seq<char>> {
    texts.map_values(|s: String| s@)
}

impl Page {
    /// The content stream so far.
    pub closed spec fn ops(&self) -> Seq<char> {
        self.ops@
    }

    /// The page's size, each spelled with two decimals.
    pub closed spec fn size(&self) -> (Seq<char>, Seq<char>) {
        (self.width@, self.height@)
    }

    /// The same page with more of a content stream.
    pub open spec fn wrote(before: &Page, after: &Page, more: Seq<char>) -> bool {
        after.ops() == before.ops() + more && after.size() == before.size()
    }

    /// A blank page of this size.
    pub fn new(width: String, height: String) -> (page: Page)
        ensures
            page.ops() == Seq::<char>::empty(),
            page.size() == (width@, height@),
    {
        Page { width, height, ops: String::new() }
    }

    /// The width, spelled with two decimals.
    pub fn width(&self) -> (w: &str)
        ensures
            w@ == self.size().0,
    {
        self.width.as_str()
    }

    /// The height, spelled with two decimals.
    pub fn height(&self) -> (h: &str)
        ensures
            h@ == self.size().1,
    {
        self.height.as_str()
    }

    /// Appends numbers with a space between each two.
    fn push_numbers(&mut self, numbers: &Vec<String>, from: usize, to: usize)
        requires
            from < to <= numbers@.len(),
        ensures
            Page::wrote(
                old(self),
                final(self),
                spaced(text_views(numbers@).subrange(from as int, to as int)),
            ),
    {
        let ghost all = text_views(numbers@);
        self.ops.append(num(numbers[from].as_str()).as_str());
        let mut k: usize = from + 1;
        proof {
            let one = all.subrange(from as int, k as int);
            assert(one.len() == 1 && one[0] == all[from as int]);
        }
        while k < to
            invariant
                from < k <= to <= numbers@.len(),
                all == text_views(numbers@),
                self.width == old(self).width,
                self.height == old(self).height,
                self.ops@ == old(self).ops@ + spaced(all.subrange(from as int, k as int)),
            decreases to - k,
        {
            let ghost held = self.ops@;
            self.ops.append(" ");
            self.ops.append(num(numbers[k].as_str()).as_str());
            proof {
                let more = all.subrange(from as int, k + 1);
                assert(more.drop_last() =~= all.subrange(from as int, k as int));
                assert(more.last() == all[k as int]);
                assert(self.ops@ =~= old(self).ops@ + spaced(more));
            }
            k += 1;
        }
    }

    /// Sets the line width.
    pub fn set_line_width(&mut self, w: &str)
        ensures
            Page::wrote(old(self), final(self), short(w@) + " w\n"@),
    {
        self.ops.append(num(w).as_str());
        self.ops.append(" w\n");
        assert(self.ops@ =~= old(self).ops@ + (short(w@) + " w\n"@));
    }

    /// Sets the colour lines are drawn in.
    pub fn set_stroke(&mut self, r: &str, g: &str, b: &str)
        ensures
            Page::wrote(
                old(self),
                final(self),
                short(r@) + " "@ + short(g@) + " "@ + short(b@) + " RG\n"@,
            ),
    {
        self.ops.append(num(r).as_str());
        self.ops.append(" ");
        self.ops.append(num(g).as_str());
        self.ops.append(" ");
        self.ops.append(num(b).as_str());
        self.ops.append(" RG\n");
        assert(self.ops@ =~= old(self).ops@ + (short(r@) + " "@ + short(g@) + " "@ + short(b@)
            + " RG\n"@));
    }

    /// Sets the colour shapes are filled with.
    pub fn set_fill(&mut self, r: &str, g: &str, b: &str)
        ensures
            Page::wrote(
                old(self),
                final(self),
                short(r@) + " "@ + short(g@) + " "@ + short(b@) + " rg\n"@,
            ),
    {
        self.ops.append(num(r).as_str());
        self.ops.append(" ");
        self.ops.append(num(g).as_str());
        self.ops.append(" ");
        self.ops.append(num(b).as_str());
        self.ops.append(" rg\n");
        assert(self.ops@ =~= old(self).ops@ + (short(r@) + " "@ + short(g@) + " "@ + short(b@)
            + " rg\n"@));
    }

    /// Breaks lines into dashes.
    pub fn set_dash(&mut self, on: &str, off: &str)
        ensures
            Page::wrote(
                old(self),
                final(self),
                "["@ + short(on@) + " "@ + short(off@) + "] 0 d\n"@,
            ),
    {
        self.ops.append("[");
        self.ops.append(num(on).as_str());
        self.ops.append(" ");
        self.ops.append(num(off).as_str());
        self.ops.append("] 0 d\n");
        assert(self.ops@ =~= old(self).ops@ + ("["@ + short(on@) + " "@ + short(off@)
            + "] 0 d\n"@));
    }

    /// Makes lines whole again.
    pub fn solid(&mut self)
        ensures
            Page::wrote(old(self), final(self), "[] 0 d\n"@),
    {
        self.ops.append("[] 0 d\n");
    }

    /// Adds one segment to the path being gathered.
    pub fn segment(&mut self, x0: &str, y0: &str, x1: &str, y1: &str)
        ensures
            Page::wrote(
                old(self),
                final(self),
                short(x0@) + " "@ + short(y0@) + " m "@ + short(x1@) + " "@ + short(y1@)
                    + " l\n"@,
            ),
    {
        self.ops.append(num(x0).as_str());
        self.ops.append(" ");
        self.ops.append(num(y0).as_str());
        self.ops.append(" m ");
        self.ops.append(num(x1).as_str());
        self.ops.append(" ");
        self.ops.append(num(y1).as_str());
        self.ops.append(" l\n");
        assert(self.ops@ =~= old(self).ops@ + (short(x0@) + " "@ + short(y0@) + " m "@ + short(x1@)
            + " "@ + short(y1@) + " l\n"@));
    }

    /// Adds one circle to the path being gathered, by the numbers of its start
    /// and of its four curves.
    pub fn circle(&mut self, numbers: &Vec<String>)
        requires
            numbers@.len() == 26,
        ensures
            Page::wrote(old(self), final(self), circle_path(text_views(numbers@))),
    {
        let ghost p = text_views(numbers@);
        self.push_numbers(numbers, 0, 2);
        self.ops.append(" m ");
        self.push_numbers(numbers, 2, 8);
        self.ops.append(" c ");
        self.push_numbers(numbers, 8, 14);
        self.ops.append(" c ");
        self.push_numbers(numbers, 14, 20);
        self.ops.append(" c ");
        self.push_numbers(numbers, 20, 26);
        self.ops.append(" c h\n");
        assert(self.ops@ =~= old(self).ops@ + circle_path(p));
    }

    /// Strokes the gathered path and starts a new one.
    pub fn stroke(&mut self)
        ensures
            Page::wrote(old(self), final(self), "S\n"@),
    {
        self.ops.append("S\n");
    }

    /// Fills the gathered path and starts a new one.
    pub fn fill(&mut self)
        ensures
            Page::wrote(old(self), final(self), "f\n"@),
    {
        self.ops.append("f\n");
    }

    /// Closes the gathered path, fills it in the fill colour and strokes it in
    /// the stroke colour, in one operator: what a hollow ring with a rim is.
    pub fn fill_and_stroke(&mut self)
        ensures
            Page::wrote(old(self), final(self), "b\n"@),
    {
        self.ops.append("b\n");
    }

    /// Writes `s` at `(x, y)`, the baseline's left end, in `size` points of
    /// Helvetica, in the current fill colour.
    pub fn text(&mut self, x: &str, y: &str, size: &str, s: &str)
        ensures
            Page::wrote(
                old(self),
                final(self),
                "BT /F1 "@ + short(size@) + " Tf "@ + short(x@) + " "@ + short(y@) + " Td ("@
                    + escaped(s@) + ") Tj ET\n"@,
            ),
    {
        self.ops.append("BT /F1 ");
        self.ops.append(num(size).as_str());
        self.ops.append(" Tf ");
        self.ops.append(num(x).as_str());
        self.ops.append(" ");
        self.ops.append(num(y).as_str());
        self.ops.append(" Td (");
        let ghost held = self.ops@;
        let n: usize = s.unicode_len();
        let mut i: usize = 0;
        assert(held + escaped(s@.take(0)) =~= held);
        while i < n
            invariant
                i <= n == s@.len(),
                self.width == old(self).width,
                self.height == old(self).height,
                self.ops@ == held + escaped(s@.take(i as int)),
            decreases n - i,
        {
            let c = s.get_char(i);
            assert(s@.take(i + 1).drop_last() =~= s@.take(i as int));
            if c == '\\' || c == '(' || c == ')' {
                self.ops.push('\\');
            }
            self.ops.push(c);
            assert(self.ops@ =~= held + escaped(s@.take(i + 1)));
            i += 1;
        }
        assert(s@.take(n as int) =~= s@);
        self.ops.append(") Tj ET\n");
        assert(self.ops@ =~= old(self).ops@ + ("BT /F1 "@ + short(size@) + " Tf "@ + short(x@)
            + " "@ + short(y@) + " Td ("@ + escaped(s@) + ") Tj ET\n"@));
    }
}

/// Text as the bytes of a file.
pub open spec fn utf8(s: Seq<char>) -> Seq<u8> {
    encode_utf8(s)
}

/// The header: the version, and a comment of bytes over 127, telling transports
/// the file is binary.
pub open spec fn head() -> Seq<u8> {
    utf8("%PDF-1.4\n"@) + seq![0x25u8, 0xe2, 0xe3, 0xcf, 0xd3, 0x0a]
}

/// What the `n`th object begins with.
pub open spec fn object_mark(n: int) -> Seq<u8> {
    if n == 1 {
        utf8("1 0 obj"@)
    } else if n == 2 {
        utf8("2 0 obj"@)
    } else if n == 3 {
        utf8("3 0 obj"@)
    } else {
        utf8("4 0 obj"@)
    }
}

/// The catalogue.
pub open spec fn catalogue() -> Seq<u8> {
    object_mark(1) + utf8("\n<< /Type /Catalog /Pages 2 0 R >>\nendobj\n"@)
}

/// The list of pages.
pub open spec fn page_list() -> Seq<u8> {
    object_mark(2) + utf8("\n<< /Type /Pages /Kids [3 0 R] /Count 1 >>\nendobj\n"@)
}

/// The page: its size, its stream and its font.
pub open spec fn page_object(width: Seq<char>, height: Seq<char>) -> Seq<u8> {
    object_mark(3) + utf8("\n<< /Type /Page /Parent 2 0 R /MediaBox [0 0 "@) + utf8(short(width))
        + utf8(" "@) + utf8(short(height)) + utf8(
        "] /Contents 4 0 R /Resources << /Font << /F1 << /Type /Font /Subtype /Type1 /BaseFont /Helvetica >> >> >> >>\nendobj\n"@,
    )
}

/// What stands in front of the content stream.
pub open spec fn stream_head(len: nat) -> Seq<u8> {
    object_mark(4) + utf8("\n<< /Length "@) + ascii(dec(len)) + utf8(
        " /Filter /FlateDecode >>\nstream\n"@,
    )
}

/// The content stream.
pub open spec fn stream_object(stream: Seq<u8>) -> Seq<u8> {
    stream_head(stream.len()) + stream + utf8("\nendstream\nendobj\n"@)
}

/// Ten digits, or as many as it takes.
pub open spec fn ten_digits(n: nat) -> Seq<char> {
    if n < 10_000_000_000 {
        padded(n, 10)
    } else {
        dec(n)
    }
}

/// One entry of the cross-reference table.
pub open spec fn xref_entry(offset: nat) -> Seq<u8> {
    ascii(ten_digits(offset)) + utf8(" 00000 n \n"@)
}

/// Where the `n`th object begins.
pub open spec fn offset_of(width: Seq<char>, height: Seq<char>, n: int) -> nat {
    if n == 1 {
        head().len()
    } else if n == 2 {
        head().len() + catalogue().len()
    } else if n == 3 {
        head().len() + catalogue().len() + page_list().len()
    } else {
        head().len() + catalogue().len() + page_list().len() + page_object(width, height).len()
    }
}

/// Where the cross-reference table begins.
pub open spec fn xref_at(width: Seq<char>, height: Seq<char>, stream: Seq<u8>) -> nat {
    offset_of(width, height, 4) + stream_object(stream).len()
}

/// Everything before the cross-reference table.
pub open spec fn objects(width: Seq<char>, height: Seq<char>, stream: Seq<u8>) -> Seq<u8> {
    head() + catalogue() + page_list() + page_object(width, height) + stream_object(stream)
}

/// The cross-reference table, whose offsets are those of the objects, and the
/// trailer, which says where the table is.
pub open spec fn closing(width: Seq<char>, height: Seq<char>, stream: Seq<u8>) -> Seq<u8> {
    utf8("xref\n0 5\n0000000000 65535 f \n"@) + xref_entry(offset_of(width, height, 1))
        + xref_entry(offset_of(width, height, 2)) + xref_entry(offset_of(width, height, 3))
        + xref_entry(offset_of(width, height, 4)) + utf8(
        "trailer\n<< /Size 5 /Root 1 0 R >>\nstartxref\n"@,
    ) + ascii(dec(xref_at(width, height, stream))) + utf8("\n%%EOF\n"@)
}

/// A PDF of one page of this size with this content stream.
#[verifier::opaque]
pub open spec fn pdf_file(width: Seq<char>, height: Seq<char>, stream: Seq<u8>) -> Seq<u8> {
    objects(width, height, stream) + closing(width, height, stream)
}

/// The cross-reference table points where the objects are: each offset in it
/// lands on the object it claims to, and the trailer's on the table.
pub proof fn the_table_points_at_the_objects(
    width: Seq<char>,
    height: Seq<char>,
    stream: Seq<u8>,
    n: int,
)
    requires
        1 <= n <= 4,
    ensures
        object_mark(n).is_prefix_of(
            pdf_file(width, height, stream).skip(offset_of(width, height, n) as int),
        ),
        closing(width, height, stream) == pdf_file(width, height, stream).skip(
            xref_at(width, height, stream) as int,
        ),
{
    reveal(pdf_file);
    let file = pdf_file(width, height, stream);
    let at = offset_of(width, height, n) as int;
    let rest = file.skip(at);
    let m = object_mark(n);
    assert(m =~= rest.take(m.len() as int));
    assert(closing(width, height, stream) =~= file.skip(xref_at(width, height, stream) as int));
}

/// Appends text as bytes.
fn push_text(out: &mut Vec<u8>, s: &str)
    ensures
        final(out)@ == old(out)@ + utf8(s@),
{
    out.extend_from_slice(s.as_bytes());
    assert(out@ =~= old(out)@ + utf8(s@));
}

/// Appends one entry of the cross-reference table.
fn push_entry(out: &mut Vec<u8>, offset: usize)
    ensures
        final(out)@ == old(out)@ + xref_entry(offset as nat),
{
    if (offset as u64) < 10_000_000_000 {
        push_padded(out, offset as u64, 10);
    } else {
        push_int(out, offset);
    }
    push_text(out, " 00000 n \n");
    assert(out@ =~= old(out)@ + xref_entry(offset as nat));
}

/// Writes the file around a content stream: the four objects, the stream, and a
/// cross-reference table whose offsets are measured off the very bytes being
/// written.
pub fn assemble(width: &str, height: &str, stream: &Vec<u8>) -> (out: Vec<u8>)
    ensures
        out@ == pdf_file(width@, height@, stream@),
{
    let mut out: Vec<u8> = Vec::new();
    push_text(&mut out, "%PDF-1.4\n");
    let binary: [u8; 6] = [0x25, 0xe2, 0xe3, 0xcf, 0xd3, 0x0a];
    out.extend_from_slice(binary.as_slice());
    assert(out@ =~= head());
    let first: usize = out.len();
    push_text(&mut out, "1 0 obj");
    push_text(&mut out, "\n<< /Type /Catalog /Pages 2 0 R >>\nendobj\n");
    assert(out@ =~= head() + catalogue());
    let second: usize = out.len();
    push_text(&mut out, "2 0 obj");
    push_text(&mut out, "\n<< /Type /Pages /Kids [3 0 R] /Count 1 >>\nendobj\n");
    assert(out@ =~= head() + catalogue() + page_list());
    let third: usize = out.len();
    push_text(&mut out, "3 0 obj");
    push_text(&mut out, "\n<< /Type /Page /Parent 2 0 R /MediaBox [0 0 ");
    push_text(&mut out, num(width).as_str());
    push_text(&mut out, " ");
    push_text(&mut out, num(height).as_str());
    push_text(
        &mut out,
        "] /Contents 4 0 R /Resources << /Font << /F1 << /Type /Font /Subtype /Type1 /BaseFont /Helvetica >> >> >> >>\nendobj\n",
    );
    assert(out@ =~= head() + catalogue() + page_list() + page_object(width@, height@));
    let fourth: usize = out.len();
    push_text(&mut out, "4 0 obj");
    push_text(&mut out, "\n<< /Length ");
    push_int(&mut out, stream.len());
    push_text(&mut out, " /Filter /FlateDecode >>\nstream\n");
    out.extend_from_slice(stream.as_slice());
    push_text(&mut out, "\nendstream\nendobj\n");
    assert(out@ =~= objects(width@, height@, stream@));
    let table: usize = out.len();
    push_text(&mut out, "xref\n0 5\n0000000000 65535 f \n");
    push_entry(&mut out, first);
    push_entry(&mut out, second);
    push_entry(&mut out, third);
    push_entry(&mut out, fourth);
    push_text(&mut out, "trailer\n<< /Size 5 /Root 1 0 R >>\nstartxref\n");
    push_int(&mut out, table);
    push_text(&mut out, "\n%%EOF\n");
    proof {
        reveal(pdf_file);
    }
    assert(out@ =~= pdf_file(width@, height@, stream@));
    out
}

/// Whether a content stream can be deflated: the encoder takes it, and ends.
pub open spec fn deflates(ops: Seq<char>) -> bool {
    accepted(false, seq![utf8(ops)]) && ended(false, seq![utf8(ops)])
}

/// Deflates a content stream: what an inflater gives back of it is the stream.
fn deflate(ops: &str) -> (r: Result<Vec<u8>, String>)
    ensures
        r is Ok <==> deflates(ops@),
        r matches Ok(stream) ==> inflated(stream@) == utf8(ops@),
{
    let mut zip = Deflater::usual();
    assert(writes(zip).push(utf8(ops@)) =~= seq![utf8(ops@)]);
    match zip.write(ops.as_bytes()) {
        Ok(()) => {},
        Err(e) => {
            return Err(e);
        },
    }
    let ghost full = zip;
    match zip.finish() {
        Ok(stream) => {
            proof {
                let tail = stream@.skip(held(full).len() as int);
                assert(emitted(full) =~= held(full));
                assert(emitted(full) + tail =~= stream@);
                assert(fed(full) =~= utf8(ops@));
            }
            Ok(stream)
        },
        Err(e) => Err(e),
    }
}

/// The file is a PDF of one page of this size whose stream inflates to `ops`.
pub open spec fn is_page(
    file: Seq<u8>,
    width: Seq<char>,
    height: Seq<char>,
    ops: Seq<char>,
) -> bool {
    exists|stream: Seq<u8>|
        #[trigger] pdf_file(width, height, stream) == file && inflated(stream) == utf8(ops)
}

impl Page {
    /// The finished page as a file. What an inflater gives back of its stream is
    /// the page's operators.
    pub fn write(self) -> (r: Result<Vec<u8>, String>)
        ensures
            r is Ok <==> deflates(self.ops()),
            match r {
                Ok(file) => is_page(file@, self.size().0, self.size().1, self.ops()),
                Err(e) => exists|why: Seq<char>| e@ == #[trigger] refusal(why),
            },
    {
        match deflate(self.ops.as_str()) {
            Ok(stream) => {
                let file = assemble(self.width.as_str(), self.height.as_str(), &stream);
                Ok(file)
            },
            Err(e) => Err(deflate_failed(e)),
        }
    }
}

/// What a page is refused with that could not be deflated.
pub open spec fn refusal(why: Seq<char>) -> Seq<char> {
    "deflating the page ("@ + why + ")"@
}

/// What a page that could not be deflated is refused with.
pub fn deflate_failed(why: String) -> (s: String)
    ensures
        s@ == refusal(why@),
{
    let mut s = "deflating the page (".to_owned();
    s.append(why.as_str());
    s.append(")");
    s
}

} // verus!
