//! The chunk writer: the file signature and length-tag-data-CRC framing.

use vstd::prelude::*;
use vstd::slice::slice_subrange;
use crate::checksum::{crc32_ieee, crc32_of_chunk};
use crate::error::{invalid_input, Error, ErrorKind};
use crate::header::Header;

verus! {

/// The eight bytes that open every PNG stream.
pub open spec fn signature() -> Seq<u8> {
    seq![137u8, 80u8, 78u8, 71u8, 13u8, 10u8, 26u8, 10u8]
}

/// The four bytes of `val`, most significant first.
pub open spec fn be32(val: u32) -> Seq<u8> {
    seq![
        (val / 0x100_0000) as u8,
        (val / 0x1_0000 % 0x100) as u8,
        (val / 0x100 % 0x100) as u8,
        (val % 0x100) as u8,
    ]
}

/// The number that four bytes spell, most significant first.
pub open spec fn from_be32(bytes: Seq<u8>) -> int
    recommends
        bytes.len() == 4,
{
    bytes[0] * 0x100_0000 + bytes[1] * 0x1_0000 + bytes[2] * 0x100 + bytes[3]
}

/// One chunk on the wire: the length of the data, the tag, the data, and
/// the CRC-32 of tag and data.
pub open spec fn chunk_bytes(tag: Seq<u8>, data: Seq<u8>) -> Seq<u8>
    recommends
        tag.len() == 4,
        data.len() <= u32::MAX,
{
    be32(data.len() as u32) + tag + data + be32(crc32_ieee(tag + data))
}

/// `data` cut into consecutive pieces of `limit` bytes, the last one
/// maybe shorter, each framed as a chunk with the same tag. No data, no
/// chunk.
pub open spec fn chunked(tag: Seq<u8>, data: Seq<u8>, limit: int) -> Seq<u8>
    recommends
        tag.len() == 4,
        1 <= limit <= u32::MAX,
    decreases data.len(),
{
    if data.len() == 0 {
        Seq::<u8>::empty()
    } else if data.len() <= limit || limit < 1 {
        chunk_bytes(tag, data)
    } else {
        chunk_bytes(tag, data.take(limit)) + chunked(tag, data.skip(limit), limit)
    }
}

pub open spec fn tag_ihdr() -> Seq<u8> {
    seq![73u8, 72u8, 68u8, 82u8]
}

pub open spec fn tag_plte() -> Seq<u8> {
    seq![80u8, 76u8, 84u8, 69u8]
}

pub open spec fn tag_trns() -> Seq<u8> {
    seq![116u8, 82u8, 78u8, 83u8]
}

pub open spec fn tag_idat() -> Seq<u8> {
    seq![73u8, 68u8, 65u8, 84u8]
}

pub open spec fn tag_iend() -> Seq<u8> {
    seq![73u8, 69u8, 78u8, 68u8]
}

/// The thirteen data bytes of a header chunk.
pub open spec fn header_bytes(header: Header) -> Seq<u8> {
    be32(header.width) + be32(header.height) + seq![
        header.depth,
        header.color_type.code(),
        header.compression_method.code(),
        header.filter_method.code(),
        header.interlace_method.code(),
    ]
}

/// A number is spelled with four bytes.
pub proof fn lemma_be32_len(val: u32)
    ensures
        be32(val).len() == 4,
{
}

/// Reading back what `be32` wrote gives the number again.
pub proof fn lemma_be32_round_trip(val: u32)
    ensures
        be32(val).len() == 4,
        from_be32(be32(val)) == val,
{
    let bytes = be32(val);
    assert(bytes[0] == (val / 0x100_0000) as u8);
    assert(bytes[1] == (val / 0x1_0000 % 0x100) as u8);
    assert(bytes[2] == (val / 0x100 % 0x100) as u8);
    assert(bytes[3] == (val % 0x100) as u8);
}

/// Where the parts lie in four byte strings joined.
pub proof fn lemma_four_parts(a: Seq<u8>, b: Seq<u8>, c: Seq<u8>, d: Seq<u8>)
    ensures
        (a + b + c + d).len() == a.len() + b.len() + c.len() + d.len(),
        (a + b + c + d).subrange(0, a.len() as int) == a,
        (a + b + c + d).subrange(a.len() as int, (a.len() + b.len()) as int) == b,
        (a + b + c + d).subrange(
            (a.len() + b.len()) as int,
            (a.len() + b.len() + c.len()) as int,
        ) == c,
        (a + b + c + d).subrange(
            (a.len() + b.len() + c.len()) as int,
            (a.len() + b.len() + c.len() + d.len()) as int,
        ) == d,
{
    let whole = a + b + c + d;
    assert(whole.subrange(0, a.len() as int) =~= a);
    assert(whole.subrange(a.len() as int, (a.len() + b.len()) as int) =~= b);
    assert(whole.subrange((a.len() + b.len()) as int, (a.len() + b.len() + c.len()) as int)
        =~= c);
    assert(whole.subrange(
        (a.len() + b.len() + c.len()) as int,
        (a.len() + b.len() + c.len() + d.len()) as int,
    ) =~= d);
}

/// A chunk has twelve bytes more than its data.
pub proof fn lemma_chunk_len(tag: Seq<u8>, data: Seq<u8>)
    requires
        tag.len() == 4,
    ensures
        chunk_bytes(tag, data).len() == 12 + data.len(),
{
    lemma_be32_len(data.len() as u32);
    lemma_be32_len(crc32_ieee(tag + data));
}

/// The data of a header chunk has thirteen bytes.
pub proof fn lemma_header_bytes_len(header: Header)
    ensures
        header_bytes(header).len() == 13,
{
    lemma_be32_len(header.width);
    lemma_be32_len(header.height);
}

/// How a chunk is laid out: twelve bytes more than its data; first the
/// length of the data, then the tag, then the data, then the CRC-32 of
/// tag and data.
pub proof fn lemma_chunk_layout(tag: Seq<u8>, data: Seq<u8>)
    requires
        tag.len() == 4,
        data.len() <= u32::MAX,
    ensures
        chunk_bytes(tag, data).len() == 12 + data.len(),
        from_be32(chunk_bytes(tag, data).subrange(0, 4)) == data.len(),
        chunk_bytes(tag, data).subrange(4, 8) == tag,
        chunk_bytes(tag, data).subrange(8, 8 + data.len() as int) == data,
        chunk_bytes(tag, data).subrange(8 + data.len() as int, 12 + data.len() as int) == be32(
            crc32_ieee(tag + data),
        ),
{
    let size = be32(data.len() as u32);
    let sum = be32(crc32_ieee(tag + data));
    lemma_be32_round_trip(data.len() as u32);
    lemma_be32_len(crc32_ieee(tag + data));
    lemma_four_parts(size, tag, data, sum);
}

/// Appends the four bytes of `val`, most significant first.
pub fn write_be32(out: &mut Vec<u8>, val: u32)
    ensures
        final(out)@ == old(out)@ + be32(val),
{
    let b0: u8 = (val >> 24) as u8;
    let b1: u8 = ((val >> 16) & 0xff) as u8;
    let b2: u8 = ((val >> 8) & 0xff) as u8;
    let b3: u8 = (val & 0xff) as u8;
    assert(val >> 24 == val / 0x100_0000) by (bit_vector);
    assert((val >> 16) & 0xff == val / 0x1_0000 % 0x100) by (bit_vector);
    assert((val >> 8) & 0xff == val / 0x100 % 0x100) by (bit_vector);
    assert(val & 0xff == val % 0x100) by (bit_vector);
    out.push(b0);
    out.push(b1);
    out.push(b2);
    out.push(b3);
    assert(out@ =~= old(out)@ + be32(val));
}

/// Appends one byte.
pub fn write_byte(out: &mut Vec<u8>, val: u8)
    ensures
        final(out)@ == old(out)@ + seq![val],
{
    out.push(val);
    assert(out@ =~= old(out)@ + seq![val]);
}

/// Writes PNG chunks into a byte buffer that it owns.
pub struct Writer {
    output: Vec<u8>,
}

impl View for Writer {
    type V = Seq<u8>;

    /// Everything in the buffer: what it held at the start, then what was
    /// written.
    closed spec fn view(&self) -> Seq<u8> {
        self.output@
    }
}

impl Writer {
    /// A chunk writer that appends to `output`; `close` gives it back.
    pub fn new(output: Vec<u8>) -> (w: Writer)
        ensures
            w@ == output@,
    {
        Writer { output }
    }

    /// Hands out what the buffer holds and leaves it empty.
    pub fn take_output(&mut self) -> (out: Vec<u8>)
        ensures
            out@ == old(self)@,
            final(self)@ == Seq::<u8>::empty(),
    {
        let mut out: Vec<u8> = Vec::new();
        core::mem::swap(&mut out, &mut self.output);
        out
    }

    /// Flushes and hands the buffer back.
    pub fn close(this: Writer) -> (r: Result<Vec<u8>, Error>)
        ensures
            r is Ok,
            r->Ok_0@ == this@,
    {
        let mut this = this;
        match this.flush() {
            Ok(()) => Ok(this.output),
            Err(e) => Err(e),
        }
    }

    /// Writes the file signature.
    pub fn write_signature(&mut self) -> (r: Result<(), Error>)
        ensures
            r is Ok,
            final(self)@ == old(self)@ + signature(),
    {
        let bytes: [u8; 8] = [137u8, 80u8, 78u8, 71u8, 13u8, 10u8, 26u8, 10u8];
        self.write_bytes(bytes.as_slice());
        assert(bytes@ =~= signature());
        Ok(())
    }

    fn write_be32(&mut self, val: u32)
        ensures
            final(self)@ == old(self)@ + be32(val),
    {
        write_be32(&mut self.output, val)
    }

    fn write_bytes(&mut self, data: &[u8])
        ensures
            final(self)@ == old(self)@ + data@,
    {
        self.output.extend_from_slice(data)
    }

    /// Writes one chunk: length, tag, data, CRC-32 of tag and data.
    ///
    /// A tag that is not four bytes long, or data longer than 2^32 - 1
    /// bytes, is refused and nothing is written.
    pub fn write_chunk(&mut self, tag: &[u8], data: &[u8]) -> (r: Result<(), Error>)
        ensures
            tag@.len() != 4 ==> r is Err && r->Err_0.has(
                ErrorKind::InvalidInput,
                "Chunk tags must be 4 bytes",
            ) && final(self)@ == old(self)@,
            tag@.len() == 4 && data@.len() > u32::MAX ==> r is Err && r->Err_0.has(
                ErrorKind::InvalidInput,
                "Data chunks cannot exceed 4 GiB - 1 byte",
            ) && final(self)@ == old(self)@,
            tag@.len() == 4 && data@.len() <= u32::MAX ==> r is Ok && final(self)@ == old(self)@
                + chunk_bytes(tag@, data@),
    {
        if tag.len() != 4 {
            return Err(invalid_input("Chunk tags must be 4 bytes"));
        }
        if data.len() > u32::MAX as usize {
            return Err(invalid_input("Data chunks cannot exceed 4 GiB - 1 byte"));
        }
        // The CRC covers both tag and data.
        let checksum: u32 = crc32_of_chunk(tag, data);

        self.write_be32(data.len() as u32);
        self.write_bytes(tag);
        self.write_bytes(data);
        self.write_be32(checksum);
        Ok(())
    }

    /// Writes `data` as consecutive chunks of at most `limit` bytes of data
    /// each, all with the same tag; no chunk at all for no data.
    ///
    /// A tag that is not four bytes long, or a limit that is zero or more
    /// than 2^32 - 1, is refused and nothing is written.
    pub fn write_split(&mut self, tag: &[u8], data: &[u8], limit: usize) -> (r: Result<(), Error>)
        ensures
            tag@.len() != 4 ==> r is Err && r->Err_0.has(
                ErrorKind::InvalidInput,
                "Chunk tags must be 4 bytes",
            ) && final(self)@ == old(self)@,
            tag@.len() == 4 && !(1 <= limit <= u32::MAX) ==> r is Err && r->Err_0.has(
                ErrorKind::InvalidInput,
                "Chunk size limit must be from 1 to 4 GiB - 1 byte",
            ) && final(self)@ == old(self)@,
            tag@.len() == 4 && 1 <= limit <= u32::MAX ==> r is Ok && final(self)@ == old(self)@
                + chunked(tag@, data@, limit as int),
    {
        if tag.len() != 4 {
            return Err(invalid_input("Chunk tags must be 4 bytes"));
        }
        if limit < 1 || limit > u32::MAX as usize {
            return Err(invalid_input("Chunk size limit must be from 1 to 4 GiB - 1 byte"));
        }
        let total: usize = data.len();
        let mut at: usize = 0;
        assert(data@.skip(0) =~= data@);
        while total - at > limit
            invariant
                at <= total,
                total == data@.len(),
                tag@.len() == 4,
                1 <= limit <= u32::MAX,
                self@ + chunked(tag@, data@.skip(at as int), limit as int) == old(self)@ + chunked(
                    tag@,
                    data@,
                    limit as int,
                ),
            decreases total - at,
        {
            let piece: &[u8] = slice_subrange(data, at, at + limit);
            let ghost rest = data@.skip(at as int);
            assert(piece@ =~= rest.take(limit as int));
            assert(data@.skip(at + limit) =~= rest.skip(limit as int));
            let ghost before = self@;
            let written = self.write_chunk(tag, piece);
            assert(self@ + chunked(tag@, data@.skip(at + limit), limit as int) =~= before
                + chunked(tag@, rest, limit as int));
            at = at + limit;
        }
        if at < total {
            let piece: &[u8] = slice_subrange(data, at, total);
            assert(piece@ =~= data@.skip(at as int));
            let written = self.write_chunk(tag, piece);
        } else {
            assert(data@.skip(at as int).len() == 0);
            assert(self@ + Seq::<u8>::empty() =~= self@);
        }
        Ok(())
    }

    /// Writes the header chunk, the first of a stream.
    pub fn write_header(&mut self, header: Header) -> (r: Result<(), Error>)
        ensures
            r is Ok,
            final(self)@ == old(self)@ + chunk_bytes(tag_ihdr(), header_bytes(header)),
    {
        let mut data: Vec<u8> = Vec::new();
        write_be32(&mut data, header.width);
        write_be32(&mut data, header.height);
        write_byte(&mut data, header.depth);
        write_byte(&mut data, header.color_type.to_u8());
        write_byte(&mut data, header.compression_method.to_u8());
        write_byte(&mut data, header.filter_method.to_u8());
        write_byte(&mut data, header.interlace_method.to_u8());
        assert(data@ =~= header_bytes(header));

        let tag: [u8; 4] = [73u8, 72u8, 68u8, 82u8];
        assert(tag@ =~= tag_ihdr());
        self.write_chunk(tag.as_slice(), data.as_slice())
    }

    /// Writes the end chunk, the last of a stream.
    pub fn write_end(&mut self) -> (r: Result<(), Error>)
        ensures
            r is Ok,
            final(self)@ == old(self)@ + chunk_bytes(tag_iend(), Seq::<u8>::empty()),
    {
        let tag: [u8; 4] = [73u8, 69u8, 78u8, 68u8];
        let data: [u8; 0] = [];
        assert(tag@ =~= tag_iend());
        assert(data@ =~= Seq::<u8>::empty());
        self.write_chunk(tag.as_slice(), data.as_slice())
    }

    /// Nothing is held back from the buffer, so there is nothing to do.
    pub fn flush(&mut self) -> (r: Result<(), Error>)
        ensures
            r is Ok,
            final(self)@ == old(self)@,
    {
        Ok(())
    }
}

} // verus!
