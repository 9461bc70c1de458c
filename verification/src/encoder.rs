//! The encoder: takes header, palette, transparency and rows in the order
//! that PNG prescribes and turns them into a PNG stream.

use vstd::prelude::*;
use vstd::slice::{slice_subrange, slice_to_vec};
use crate::checksum::adler32;
use crate::error::{internal, invalid_input, invalid_state, Error, ErrorKind};
use crate::filter::zero_row;
use crate::group::{
    encode_groups, encode_groups_on, view_of, worker_count, CompressedGroup, RowGroup,
};
use crate::header::{ColorType, Header};
use crate::options::{Options, Settings};
use crate::plan::{lemma_mul_next, lemma_mul_ordered, plan_fault, plan_for, row_at, Plan};
use crate::reassemble::{lemma_place_of, worker_failure, Assembly, Reassembler};
use crate::stream::{lemma_png_stream_parts, palette_chunk, png_stream, transparency_chunk};
use crate::writer::{chunk_bytes, header_bytes, signature, tag_ihdr, tag_plte, tag_trns, Writer};

verus! {

/// Where an encoder stands in the order of its operations.
#[derive(Clone, Copy, Debug, PartialEq, Eq, Structural)]
pub enum State {
    /// Nothing has been written.
    Fresh,
    /// Signature and header chunk are written.
    HeaderWritten,
    /// The palette chunk is written.
    PaletteWritten,
    /// The transparency chunk is written.
    TransparencyWritten,
    /// Rows have been accepted.
    RowsStreaming,
    /// The stream is complete and the sink handed back.
    Finished,
    /// A worker failed; nothing more can be done.
    Poisoned,
}

/// How many row groups may be in the workers' hands beyond one for each
/// thread of the pool.
pub const IN_FLIGHT_EXTRA: usize = 4;

/// The most bytes a palette may have: 256 entries of three bytes.
pub const MAX_PALETTE_BYTES: usize = 768;

/// Whether a palette of `len` bytes is acceptable: whole entries of three
/// bytes, 256 of them at most.
pub open spec fn palette_ok(len: int) -> bool {
    len % 3 == 0 && len <= MAX_PALETTE_BYTES
}

/// Whether transparency data of `len` bytes is acceptable for the color
/// type: one 16-bit sample for greyscale, three for truecolor, for an
/// indexed image at most one byte for each entry of the palette written
/// before, and none at all where pixels carry their own alpha.
pub open spec fn transparency_ok(
    color_type: ColorType,
    palette_len: Option<usize>,
    len: int,
) -> bool {
    match color_type {
        ColorType::Greyscale => len == 2,
        ColorType::Truecolor => len == 6,
        ColorType::IndexedColor => palette_len is Some && len * 3 <= palette_len->Some_0,
        ColorType::GreyscaleAlpha => false,
        ColorType::TruecolorAlpha => false,
    }
}

/// Whether transparency data of `len` bytes suits the color type and the
/// palette.
pub fn transparency_fits(color_type: ColorType, palette_len: Option<usize>, len: usize) -> (ok:
    bool)
    ensures
        ok == transparency_ok(color_type, palette_len, len as int),
{
    match color_type {
        ColorType::Greyscale => len == 2,
        ColorType::Truecolor => len == 6,
        ColorType::IndexedColor => match palette_len {
            Some(entries) => len <= entries / 3,
            None => false,
        },
        ColorType::GreyscaleAlpha => false,
        ColorType::TruecolorAlpha => false,
    }
}

/// What is wrong with rows that are refused as invalid input: the image
/// is indexed and has no palette yet, or else the rows are more than the
/// image still lacks.
pub open spec fn rows_fault(color_type: ColorType, palette_len: Option<usize>) -> &'static str {
    if !palette_present(color_type, palette_len) {
        "An indexed image needs its palette before its rows"
    } else {
        "More image data than the header allows"
    }
}

/// Whether an image of this color type may get rows now: an indexed image
/// only once its palette is written.
pub open spec fn palette_present(color_type: ColorType, palette_len: Option<usize>) -> bool {
    color_type == ColorType::IndexedColor ==> palette_len is Some
}

/// What an encoder is, as a value.
pub struct EncoderView<'a> {
    pub state: State,
    pub settings: Settings,
    /// The thread pool on which row groups are encoded, if there is one.
    pub pool: Option<&'a rayon::ThreadPool>,
    /// The header written; before that the header of fresh headers.
    pub header: Header,
    /// The length in bytes of the palette written, if one was.
    pub palette_len: Option<usize>,
    /// Everything in the sink.
    pub sink: Seq<u8>,
    /// All the pixel bytes accepted so far.
    pub received: Seq<u8>,
    /// The number of row groups that have been encoded and reassembled.
    pub groups_done: int,
}

impl<'a> EncoderView<'a> {
    /// The plan that header and settings give.
    pub open spec fn plan(self) -> Plan {
        plan_for(self.header, self.settings)
    }

    /// Whether the encoder is between header and end.
    pub open spec fn open(self) -> bool {
        self.state == State::HeaderWritten || self.state == State::PaletteWritten || self.state
            == State::TransparencyWritten || self.state == State::RowsStreaming
    }

    /// The bytes of the whole image.
    pub open spec fn image_size(self) -> nat {
        self.header.image_size()
    }
}

/// What holds of the rows in flight: the plan is that of header and
/// settings, the counts of rows and groups agree, the buffer from `pos` on
/// holds the bytes that follow the rows handed to workers, `above` is the
/// last of those rows, and the reassembly has taken in just those groups.
#[verifier::opaque]
spec fn rows_in_order(
    header: Header,
    settings: Settings,
    plan: Plan,
    groups_done: u32,
    rows_done: u32,
    buffer: Seq<u8>,
    above: Seq<u8>,
    received: Seq<u8>,
    assembly: Assembly,
    pos: int,
) -> bool {
    let stride = plan.stride as int;
    &&& header.valid()
    &&& header.bytes_per_row() <= usize::MAX
    &&& plan == plan_for(header, settings)
    &&& plan.wf()
    &&& plan.height == header.height
    &&& plan.stride == header.bytes_per_row()
    &&& 0 <= groups_done <= plan.group_count()
    &&& rows_done == plan.group_start(groups_done as int)
    &&& 0 <= pos <= buffer.len()
    &&& received.len() == rows_done * stride + (buffer.len() - pos)
    &&& received.len() <= plan.height * stride
    &&& buffer.skip(pos) == received.skip(rows_done * stride)
    &&& above == plan.row_above(received, rows_done as int)
    &&& above.len() == stride
    &&& assembly == plan.assembly(received, groups_done as nat)
}

/// The number of groups that are complete in `pixels`.
#[verifier::opaque]
spec fn caught_up(plan: Plan, pixels: Seq<u8>) -> int {
    plan.groups_ready(pixels.len() as int)
}

/// Whether `job` is group `g` of the image in `pixels`, cut out with the
/// row above it.
spec fn is_group_job(plan: Plan, pixels: Seq<u8>, g: int, job: &RowGroup) -> bool {
    &&& job.wf(plan)
    &&& job.index == g
    &&& job.filtered(plan) == plan.group_filtered(pixels, g)
}

/// Whether `done` is what group `g` of the image in `pixels` is to become:
/// its index, the length and checksum of its filtered bytes, and what the
/// compressor makes of them.
pub open spec fn is_group_result(
    plan: Plan,
    pixels: Seq<u8>,
    g: int,
    done: &CompressedGroup,
) -> bool {
    &&& done.index == g
    &&& done.filtered_len == plan.group_filtered(pixels, g).len()
    &&& done.adler == adler32(plan.group_filtered(pixels, g))
    &&& view_of(done.data) == plan.group_deflated(pixels, g)
}

/// A PNG encoder that writes into a byte buffer that it owns.
pub struct Encoder<'a> {
    state: State,
    settings: Settings,
    pool: Option<&'a rayon::ThreadPool>,
    writer: Writer,
    header: Header,
    plan: Plan,
    palette_len: Option<usize>,
    reassembler: Reassembler,
    /// Bytes accepted and not yet handed to a worker.
    buffer: Vec<u8>,
    /// The row above the first row that is not yet handed to a worker.
    above: Vec<u8>,
    rows_done: u32,
    groups_done: u32,
    received: Ghost<Seq<u8>>,
}

impl<'a> View for Encoder<'a> {
    type V = EncoderView<'a>;

    closed spec fn view(&self) -> EncoderView<'a> {
        EncoderView {
            state: self.state,
            settings: self.settings,
            pool: self.pool,
            header: self.header,
            palette_len: self.palette_len,
            sink: self.writer@,
            received: self.received@,
            groups_done: self.groups_done as int,
        }
    }
}

impl<'a> Encoder<'a> {
    /// What holds of the rows in flight, given that `pos` bytes at the
    /// front of the buffer have been handed to workers.
    closed spec fn flowing(&self, pos: int) -> bool {
        rows_in_order(
            self.header,
            self.settings,
            self.plan,
            self.groups_done,
            self.rows_done,
            self.buffer@,
            self.above@,
            self.received@,
            self.reassembler@,
            pos,
        )
    }

    /// The invariant of an encoder.
    pub closed spec fn wf(&self) -> bool {
        &&& self.settings.valid()
        &&& self.palette_len is Some ==> palette_ok(self.palette_len->Some_0 as int)
        &&& self.state == State::Fresh ==> self.header == Header::initial() && self.palette_len
            is None && self.received@.len() == 0 && self.groups_done == 0
        &&& self@.open() ==> {
            &&& self.flowing(0)
            &&& self.groups_done == self.plan.groups_ready(self.received@.len() as int)
            &&& self.state != State::RowsStreaming ==> self.received@.len() == 0
            &&& self.state == State::HeaderWritten ==> self.palette_len is None
            &&& self.state == State::PaletteWritten ==> self.palette_len is Some
            &&& self.state == State::TransparencyWritten ==> palette_present(
                self.header.color_type,
                self.palette_len,
            )
            &&& self.state == State::RowsStreaming ==> palette_present(
                self.header.color_type,
                self.palette_len,
            )
        }
    }

    /// A fresh encoder that will append to `sink` and encode its row
    /// groups on the thread pool of the options, if they have one. Fails
    /// if the options are not valid.
    pub fn new(sink: Vec<u8>, options: &Options<'a>) -> (r: Result<Encoder<'a>, Error>)
        ensures
            options@.valid() ==> r is Ok && r->Ok_0.wf() && r->Ok_0@ == (EncoderView {
                state: State::Fresh,
                settings: options@,
                pool: options.pool(),
                header: Header::initial(),
                palette_len: None,
                sink: sink@,
                received: Seq::<u8>::empty(),
                groups_done: 0,
            }),
            !options@.valid() ==> r is Err && r->Err_0.has(
                ErrorKind::InvalidInput,
                "Invalid options",
            ),
    {
        let settings: Settings = options.settings();
        if !settings.is_valid() {
            return Err(invalid_input("Invalid options"));
        }
        let plan = Plan {
            filter_mode: settings.filter_mode,
            bpp: 1,
            stride: 1,
            height: 1,
            group_rows: 1,
            level: settings.compression_level,
            strategy: settings.effective_strategy(),
            chunk_size: settings.chunk_size,
            streaming: settings.streaming,
        };
        Ok(
            Encoder {
                state: State::Fresh,
                settings,
                pool: options.thread_pool(),
                writer: Writer::new(sink),
                header: Header::new(),
                plan,
                palette_len: None,
                reassembler: Reassembler::new(
                    settings.compression_level,
                    settings.chunk_size,
                    settings.streaming,
                ),
                buffer: Vec::new(),
                above: Vec::new(),
                rows_done: 0,
                groups_done: 0,
                received: Ghost(Seq::<u8>::empty()),
            },
        )
    }

    /// Between the calls every row group that is complete has been
    /// encoded.
    pub proof fn lemma_groups_done(&self)
        requires
            self.wf(),
            self@.open(),
        ensures
            self@.plan().wf(),
            self@.groups_done == self@.plan().groups_ready(self@.received.len() as int),
            self@.received.len() <= self@.image_size(),
            self@.received.len() == self@.image_size() ==> self@.groups_done
                == self@.plan().group_count(),
            self@.plan().groups_ready(self@.image_size() as int) == self@.plan().group_count(),
    {
        reveal(rows_in_order);
        self.plan.lemma_whole_image_ready();
    }

    /// The thread pool on which row groups are encoded, if there is one.
    pub fn thread_pool(&self) -> (p: Option<&'a rayon::ThreadPool>)
        ensures
            p == self@.pool,
    {
        self.pool
    }

    /// Where the encoder stands.
    pub fn state(&self) -> (s: State)
        ensures
            s == self@.state,
    {
        self.state
    }

    /// Checks the header, then writes the signature and the header chunk.
    ///
    /// Allowed on a fresh encoder only. A header that is not valid, or
    /// whose rows are longer than this machine can address, is refused.
    pub fn write_header(&mut self, header: &Header) -> (r: Result<(), Error>)
        requires
            old(self).wf(),
        ensures
            final(self).wf(),
            old(self)@.state == State::Poisoned ==> r is Err && r->Err_0.has(
                ErrorKind::Internal,
                worker_failure(),
            ) && *final(self) == *old(self),
            old(self)@.state != State::Poisoned && old(self)@.state != State::Fresh ==> r is Err
                && r->Err_0.has(
                    ErrorKind::InvalidState,
                    "The header must be written first, and once",
                ) && *final(self) == *old(self),
            old(self)@.state == State::Fresh && !(header.valid() && header.bytes_per_row()
                <= usize::MAX) ==> r is Err && r->Err_0.has(
                    ErrorKind::InvalidInput,
                    plan_fault(*header, old(self)@.settings),
                )
                && *final(self) == *old(self),
            old(self)@.state == State::Fresh && header.valid() && header.bytes_per_row()
                <= usize::MAX ==> r is Ok && final(self)@ == (EncoderView {
                state: State::HeaderWritten,
                header: *header,
                sink: old(self)@.sink + signature() + chunk_bytes(
                    tag_ihdr(),
                    header_bytes(*header),
                ),
                ..old(self)@
            }),
    {
        match self.state {
            State::Poisoned => {
                return Err(internal("A worker failed to encode its rows"));
            },
            State::Fresh => {},
            _ => {
                return Err(invalid_state("The header must be written first, and once"));
            },
        }
        let plan: Plan = match Plan::new(header, &self.settings) {
            Ok(plan) => plan,
            Err(e) => {
                return Err(e);
            },
        };
        let ghost sink = self.writer@;
        let signed = self.writer.write_signature();
        let framed = self.writer.write_header(*header);
        assert(self.writer@ =~= sink + signature() + chunk_bytes(
            tag_ihdr(),
            header_bytes(*header),
        ));
        self.header = *header;
        self.plan = plan;
        self.reassembler = Reassembler::new(plan.level, plan.chunk_size, plan.streaming);
        self.buffer = Vec::new();
        self.above = vec![0u8; plan.stride];
        self.rows_done = 0;
        self.groups_done = 0;
        self.state = State::HeaderWritten;
        proof {
            lemma_mul_next(0, plan.group_rows as int);
            lemma_mul_next(0, plan.stride as int);
            plan.lemma_group_count_capped();
            assert(self.above@ =~= zero_row(plan.stride as nat));
            assert(self.buffer@.skip(0) =~= self.received@.skip(0));
            plan.lemma_nothing_ready();
            reveal(rows_in_order);
        }
        Ok(())
    }

    /// Writes the palette chunk.
    ///
    /// Allowed right after the header only. The palette must have whole
    /// entries of three bytes, and at most 256 of them.
    pub fn write_palette(&mut self, palette: &[u8]) -> (r: Result<(), Error>)
        requires
            old(self).wf(),
        ensures
            final(self).wf(),
            old(self)@.state == State::Poisoned ==> r is Err && r->Err_0.has(
                ErrorKind::Internal,
                worker_failure(),
            ) && *final(self) == *old(self),
            old(self)@.state != State::Poisoned && old(self)@.state != State::HeaderWritten ==> r
                is Err && r->Err_0.has(
                    ErrorKind::InvalidState,
                    "The palette must follow the header",
                ) && *final(self) == *old(self),
            old(self)@.state == State::HeaderWritten && !palette_ok(palette@.len() as int) ==> r
                is Err && r->Err_0.has(
                    ErrorKind::InvalidInput,
                    "A palette has up to 256 entries of 3 bytes",
                ) && *final(self) == *old(self),
            old(self)@.state == State::HeaderWritten && palette_ok(palette@.len() as int) ==> r
                is Ok && final(self)@ == (EncoderView {
                state: State::PaletteWritten,
                palette_len: Some(palette@.len() as usize),
                sink: old(self)@.sink + chunk_bytes(tag_plte(), palette@),
                ..old(self)@
            }),
    {
        match self.state {
            State::Poisoned => {
                return Err(internal("A worker failed to encode its rows"));
            },
            State::HeaderWritten => {},
            _ => {
                return Err(invalid_state("The palette must follow the header"));
            },
        }
        if palette.len() % 3 != 0 || palette.len() > MAX_PALETTE_BYTES {
            return Err(invalid_input("A palette has up to 256 entries of 3 bytes"));
        }
        let tag: [u8; 4] = [80u8, 76u8, 84u8, 69u8];
        assert(tag@ =~= tag_plte());
        let framed = self.writer.write_chunk(tag.as_slice(), palette);
        self.palette_len = Some(palette.len());
        self.state = State::PaletteWritten;
        Ok(())
    }

    /// Writes the transparency chunk.
    ///
    /// Allowed after the header or the palette, before any row. The data
    /// must suit the color type.
    pub fn write_transparency(&mut self, data: &[u8]) -> (r: Result<(), Error>)
        requires
            old(self).wf(),
        ensures
            final(self).wf(),
            old(self)@.state == State::Poisoned ==> r is Err && r->Err_0.has(
                ErrorKind::Internal,
                worker_failure(),
            ) && *final(self) == *old(self),
            old(self)@.state != State::Poisoned && old(self)@.state != State::HeaderWritten
                && old(self)@.state != State::PaletteWritten ==> r is Err && r->Err_0.kind
                == ErrorKind::InvalidState && *final(self) == *old(self),
            (old(self)@.state == State::HeaderWritten || old(self)@.state == State::PaletteWritten)
                && !transparency_ok(
                old(self)@.header.color_type,
                old(self)@.palette_len,
                data@.len() as int,
            ) ==> r is Err && r->Err_0.has(
                ErrorKind::InvalidInput,
                "Transparency data does not suit the color type",
            ) && *final(self) == *old(
                self
            ),
            (old(self)@.state == State::HeaderWritten || old(self)@.state == State::PaletteWritten)
                && transparency_ok(
                old(self)@.header.color_type,
                old(self)@.palette_len,
                data@.len() as int,
            ) ==> r is Ok && final(self)@ == (EncoderView {
                state: State::TransparencyWritten,
                sink: old(self)@.sink + chunk_bytes(tag_trns(), data@),
                ..old(self)@
            }),
    {
        match self.state {
            State::Poisoned => {
                return Err(internal("A worker failed to encode its rows"));
            },
            State::HeaderWritten => {},
            State::PaletteWritten => {},
            _ => {
                return Err(invalid_state("Transparency must come before the rows"));
            },
        }
        let fits: bool = transparency_fits(self.header.color_type, self.palette_len, data.len());
        if !fits {
            return Err(invalid_input("Transparency data does not suit the color type"));
        }
        let tag: [u8; 4] = [116u8, 82u8, 78u8, 83u8];
        assert(tag@ =~= tag_trns());
        let framed = self.writer.write_chunk(tag.as_slice(), data);
        self.state = State::TransparencyWritten;
        Ok(())
    }

    /// Hands out what has been written so far and leaves the sink empty,
    /// so that a caller who streams can pass the bytes on while rows are
    /// still to come. Nothing else changes: what is written later follows
    /// what was handed out.
    pub fn take_output(&mut self) -> (out: Vec<u8>)
        requires
            old(self).wf(),
        ensures
            final(self).wf(),
            out@ == old(self)@.sink,
            final(self)@ == (EncoderView { sink: Seq::<u8>::empty(), ..old(self)@ }),
    {
        self.writer.take_output()
    }

    /// The number of bytes that the image still lacks.
    pub fn bytes_missing(&self) -> (n: u128)
        requires
            self.wf(),
            self@.open(),
        ensures
            n == self@.image_size() - self@.received.len(),
    {
        proof {
            reveal(rows_in_order);
        }
        let rows_left: u128 = (self.plan.height - self.rows_done) as u128;
        assert(rows_left * (self.plan.stride as u128) == (self.plan.height - self.rows_done)
            * self.plan.stride && rows_left * (self.plan.stride as u128) <= 0x7fff_ffff
            * 0xffff_ffff_ffff_ffff) by (nonlinear_arith)
            requires
                rows_left == self.plan.height - self.rows_done,
                0 <= rows_left <= 0x7fff_ffff,
                0 <= self.plan.stride <= 0xffff_ffff_ffff_ffff,
        ;
        assert((self.plan.height - self.rows_done) * self.plan.stride == self.plan.height
            * self.plan.stride - self.rows_done * self.plan.stride) by (nonlinear_arith);
        rows_left * (self.plan.stride as u128) - (self.buffer.len() as u128)
    }

    /// Accepts pixel bytes, in row order. Whole rows need not come in one
    /// call: what is left of a row, or of a row group, waits for the next
    /// call. Every row group that is complete is filtered and compressed,
    /// on the thread pool if there is one, and handed to the reassembler.
    ///
    /// Allowed after the header. Rows of an indexed image that has no
    /// palette yet, and more bytes than the image still lacks, are refused
    /// as invalid input. The call succeeds if and only if the compressor
    /// copes with every row group that these bytes complete; if it gives
    /// up on one, the encoder is poisoned.
    pub fn write_image_rows(&mut self, bytes: &[u8]) -> (r: Result<(), Error>)
        requires
            old(self).wf(),
        ensures
            final(self).wf(),
            old(self)@.state == State::Poisoned ==> r is Err && r->Err_0.has(
                ErrorKind::Internal,
                worker_failure(),
            ) && *final(self) == *old(self),
            old(self)@.state != State::Poisoned && !old(self)@.open() ==> r is Err
                && r->Err_0.has(
                    ErrorKind::InvalidState,
                    "Rows must come between the header and the end",
                ) && *final(self) == *old(self),
            old(self)@.open() && !(palette_present(
                old(self)@.header.color_type,
                old(self)@.palette_len,
            ) && old(self)@.received.len() + bytes@.len() <= old(self)@.image_size()) ==> r is Err
                && r->Err_0.has(
                    ErrorKind::InvalidInput,
                    rows_fault(old(self)@.header.color_type, old(self)@.palette_len),
                ) && *final(self) == *old(self),
            old(self)@.open() && palette_present(
                old(self)@.header.color_type,
                old(self)@.palette_len,
            ) && old(self)@.received.len() + bytes@.len() <= old(self)@.image_size() ==> {
                &&& r is Ok <==> old(self)@.plan().all_deflated(
                    old(self)@.received + bytes@,
                    old(self)@.groups_done,
                    old(self)@.plan().groups_ready(
                        (old(self)@.received.len() + bytes@.len()) as int,
                    ),
                )
                &&& r is Ok ==> final(self)@ == (EncoderView {
                    state: State::RowsStreaming,
                    received: old(self)@.received + bytes@,
                    groups_done: old(self)@.plan().groups_ready(
                        (old(self)@.received.len() + bytes@.len()) as int,
                    ),
                    sink: old(self)@.sink + old(self)@.plan().emitted_between(
                        old(self)@.received + bytes@,
                        old(self)@.groups_done as nat,
                        old(self)@.plan().groups_ready(
                            (old(self)@.received.len() + bytes@.len()) as int,
                        ) as nat,
                    ),
                    ..old(self)@
                })
                &&& r is Err ==> r->Err_0.has(ErrorKind::Internal, worker_failure()) && final(
                    self
                )@.state == State::Poisoned
                &&& old(self)@.plan().groups_ready(
                    (old(self)@.received.len() + bytes@.len()) as int,
                ) == old(self)@.groups_done ==> r is Ok
                &&& bytes@.len() == 0 ==> r is Ok && final(self)@ == (EncoderView {
                    state: State::RowsStreaming,
                    ..old(self)@
                })
            },
    {
        match self.state {
            State::Poisoned => {
                return Err(internal("A worker failed to encode its rows"));
            },
            State::Fresh => {
                return Err(invalid_state("Rows must come between the header and the end"));
            },
            State::Finished => {
                return Err(invalid_state("Rows must come between the header and the end"));
            },
            _ => {},
        }
        if self.header.color_type == ColorType::IndexedColor && self.palette_len.is_none() {
            return Err(invalid_input("An indexed image needs its palette before its rows"));
        }
        proof {
            reveal(rows_in_order);
        }
        let ghost old_received = self.received@;
        let ghost old_sink = self.writer@;
        let ghost g0 = self.groups_done as nat;
        let ghost plan = self.plan;
        let room: u128 = self.bytes_missing();
        if bytes.len() as u128 > room {
            return Err(invalid_input("More image data than the header allows"));
        }
        self.stage(bytes);
        let cap: usize = match self.pool {
            Some(pool) => {
                let threads: usize = worker_count(pool);
                if threads > usize::MAX - IN_FLIGHT_EXTRA {
                    usize::MAX
                } else {
                    threads + IN_FLIGHT_EXTRA
                }
            },
            None => 1,
        };
        let ghost staged = self.received@;
        let drained = self.drain(cap);
        proof {
            reveal(rows_in_order);
            let ready = plan.groups_ready(staged.len() as int);
            if ready == g0 {
                plan.lemma_all_deflated_empty(staged, g0 as int, ready);
                assert(plan.emitted_between(staged, g0, g0) =~= Seq::<u8>::empty());
                assert(old_sink + Seq::<u8>::empty() =~= old_sink);
            }
            if bytes@.len() == 0 {
                assert(old_received + bytes@ =~= old_received);
            }
        }
        drained
    }

    /// Puts bytes that the image still lacks behind those in the buffer.
    fn stage(&mut self, bytes: &[u8])
        requires
            old(self).flowing(0),
            old(self).received@.len() + bytes@.len() <= old(self).plan.height * old(self).plan.stride,
        ensures
            final(self).flowing(0),
            final(self).received@ == old(self).received@ + bytes@,
            *final(self) == (Encoder {
                state: State::RowsStreaming,
                buffer: final(self).buffer,
                received: final(self).received,
                ..*old(self)
            }),
    {
        proof {
            reveal(rows_in_order);
        }
        let ghost old_received = self.received@;
        let ghost plan = self.plan;
        let ghost g0 = self.groups_done as nat;
        self.buffer.extend_from_slice(bytes);
        proof {
            self.received@ = old_received + bytes@;
            let stride = plan.stride as int;
            let lo = self.rows_done * stride;
            lemma_mul_ordered(0, self.rows_done as int, stride);
            assert(self.buffer@.skip(0) =~= self.buffer@);
            assert(old(self).buffer@.skip(0) =~= old(self).buffer@);
            assert(self.buffer@ =~= self.received@.skip(lo));
            plan.lemma_assembly_stable(old_received, bytes@, g0);
            if self.rows_done > 0 {
                lemma_mul_next(self.rows_done - 1, stride);
                lemma_mul_ordered(0, self.rows_done - 1, stride);
                assert(row_at(self.received@, stride, self.rows_done - 1) =~= row_at(
                    old_received,
                    stride,
                    self.rows_done - 1,
                ));
            }
        }
        self.state = State::RowsStreaming;
    }

    /// Hands every row group that is complete in the buffer to the workers
    /// and the reassembler, `cap` of them at a time, and drops from the
    /// buffer what has been handed on.
    fn drain(&mut self, cap: usize) -> (r: Result<(), Error>)
        requires
            old(self).flowing(0),
            cap >= 1,
        ensures
            r is Ok ==> {
                &&& final(self).flowing(0)
                &&& *final(self) == (Encoder {
                    writer: final(self).writer,
                    reassembler: final(self).reassembler,
                    buffer: final(self).buffer,
                    above: final(self).above,
                    rows_done: final(self).rows_done,
                    groups_done: final(self).groups_done,
                    ..*old(self)
                })
                &&& final(self).writer@ == old(self).writer@ + old(self).plan.emitted_between(
                    old(self).received@,
                    old(self).groups_done as nat,
                    final(self).groups_done as nat,
                )
                &&& final(self).groups_done == old(self).plan.groups_ready(
                    old(self).received@.len() as int,
                )
                &&& final(self).groups_done >= old(self).groups_done
                &&& old(self).plan.all_deflated(
                    old(self).received@,
                    old(self).groups_done as int,
                    final(self).groups_done as int,
                )
            },
            r is Err ==> r->Err_0.has(ErrorKind::Internal, worker_failure()) && final(self).state
                == State::Poisoned && final(self).settings == old(self).settings && final(
                self
            ).palette_len == old(self).palette_len && !old(self).plan.all_deflated(
                old(self).received@,
                old(self).groups_done as int,
                old(self).plan.groups_ready(old(self).received@.len() as int),
            ),
    {
        let ghost start = *self;
        let ghost plan = self.plan;
        let ghost g0 = self.groups_done as nat;
        let ghost sink0 = self.writer@;
        let mut pos: usize = 0;
        let mut idle: bool = false;
        assert(sink0 + plan.emitted_between(self.received@, g0, g0) =~= sink0);
        proof {
            reveal(rows_in_order);
            plan.lemma_all_deflated_empty(self.received@, g0 as int, g0 as int);
        }
        while !idle
            invariant
                cap >= 1,
                self.flowing(pos as int),
                g0 <= self.groups_done <= plan.group_count(),
                *self == (Encoder {
                    writer: self.writer,
                    reassembler: self.reassembler,
                    above: self.above,
                    rows_done: self.rows_done,
                    groups_done: self.groups_done,
                    ..start
                }),
                plan == start.plan,
                start == *old(self),
                g0 == start.groups_done,
                sink0 == start.writer@,
                self.writer@ == sink0 + plan.emitted_between(
                    start.received@,
                    g0,
                    self.groups_done as nat,
                ),
                idle ==> self.groups_done == caught_up(plan, start.received@),
                plan.all_deflated(start.received@, g0 as int, self.groups_done as int),
            decreases plan.group_count() - self.groups_done, (if idle { 0int } else { 1int }),
        {
            let ghost before = self.groups_done as nat;
            match self.pump(pos, cap) {
                Err(e) => {
                    proof {
                        reveal(caught_up);
                        let ready = plan.groups_ready(start.received@.len() as int);
                        plan.lemma_all_deflated_within(
                            start.received@,
                            before as int,
                            ready,
                            g0 as int,
                            ready,
                        );
                    }
                    return Err(e);
                },
                Ok(next) => {
                    proof {
                        plan.lemma_emitted_extends(
                            sink0,
                            start.received@,
                            g0,
                            before,
                            self.groups_done as nat,
                        );
                        plan.lemma_all_deflated_joins(
                            start.received@,
                            g0 as int,
                            before as int,
                            self.groups_done as int,
                        );
                    }
                    if next == pos {
                        idle = true;
                    }
                    pos = next;
                },
            }
        }
        proof {
            reveal(rows_in_order);
            reveal(caught_up);
        }
        let rest: Vec<u8> = self.buffer.split_off(pos);
        self.buffer = rest;
        proof {
            assert(self.buffer@.skip(0) =~= self.buffer@);
        }
        Ok(())
    }

    /// Hands the row groups that are complete in the buffer from `pos` on,
    /// `cap` of them at most, to the workers, and what comes back to the
    /// reassembler. Returns the place in the buffer behind those groups.
    fn pump(&mut self, pos: usize, cap: usize) -> (r: Result<usize, Error>)
        requires
            old(self).flowing(pos as int),
            cap >= 1,
        ensures
            r is Ok ==> {
                &&& final(self).flowing(r->Ok_0 as int)
                &&& *final(self) == (Encoder {
                    writer: final(self).writer,
                    reassembler: final(self).reassembler,
                    above: final(self).above,
                    rows_done: final(self).rows_done,
                    groups_done: final(self).groups_done,
                    ..*old(self)
                })
                &&& final(self).writer@ == old(self).writer@ + old(self).plan.emitted_between(
                    old(self).received@,
                    old(self).groups_done as nat,
                    final(self).groups_done as nat,
                )
                &&& old(self).groups_done <= final(self).groups_done <= old(self).plan.group_count()
                &&& r->Ok_0 == pos ==> final(self).groups_done == old(self).groups_done && old(
                    self
                ).groups_done == caught_up(old(self).plan, old(self).received@)
                &&& r->Ok_0 != pos ==> final(self).groups_done > old(self).groups_done
                &&& old(self).plan.all_deflated(
                    old(self).received@,
                    old(self).groups_done as int,
                    final(self).groups_done as int,
                )
            },
            r is Err ==> r->Err_0.has(ErrorKind::Internal, worker_failure()) && final(self).state
                == State::Poisoned && final(self).settings == old(self).settings && final(
                self
            ).palette_len == old(self).palette_len && !old(self).plan.all_deflated(
                old(self).received@,
                old(self).groups_done as int,
                caught_up(old(self).plan, old(self).received@),
            ),
    {
        let ghost received = self.received@;
        let ghost g0 = self.groups_done as int;
        let ghost sink = self.writer@;
        let plan: Plan = self.plan;
        let batch = self.gather(pos, cap);
        let jobs: Vec<RowGroup> = batch.0;
        let reach: Reach = batch.1;
        if jobs.len() == 0 {
            proof {
                reveal(caught_up);
                plan.lemma_all_deflated_empty(received, g0, g0);
            }
            assert(sink + plan.emitted_between(received, g0 as nat, g0 as nat) =~= sink);
            return Ok(pos);
        }
        proof {
            reveal(rows_in_order);
        }
        let results: Vec<CompressedGroup> = match self.pool {
            Some(pool) => encode_groups_on(pool, &plan, &jobs),
            None => encode_groups(&plan, &jobs),
        };
        assert forall|k: int| 0 <= k < results@.len() implies is_group_result(
            plan,
            received,
            g0 + k,
            #[trigger] &results@[k],
        ) by {
            assert(is_group_job(plan, received, g0 + k, &jobs@[k]));
            assert(results@[k].encodes(plan, &jobs@[k]));
        }
        match absorb(
            &mut self.reassembler,
            &mut self.writer,
            &plan,
            results,
            Ghost(received),
            Ghost(g0 as nat),
        ) {
            Err(e) => {
                proof {
                    plan.lemma_all_deflated_within(
                        received,
                        g0,
                        reach.groups as int,
                        g0,
                        caught_up(plan, received),
                    );
                }
                self.state = State::Poisoned;
                return Err(e);
            },
            Ok(()) => {},
        }
        self.groups_done = reach.groups;
        self.rows_done = reach.rows;
        self.above = reach.above;
        Ok(reach.at)
    }

    /// Cuts out of the buffer, from `pos` on, the row groups that are
    /// complete there, `cap` of them at most, and says how far that
    /// reaches.
    fn gather(&self, pos: usize, cap: usize) -> (r: (Vec<RowGroup>, Reach))
        requires
            self.flowing(pos as int),
            cap >= 1,
        ensures
            rows_in_order(
                self.header,
                self.settings,
                self.plan,
                r.1.groups,
                r.1.rows,
                self.buffer@,
                r.1.above@,
                self.received@,
                self.plan.assembly(self.received@, r.1.groups as nat),
                r.1.at as int,
            ),
            self.plan.wf(),
            self.groups_done <= r.1.groups <= self.plan.group_count() <= self.plan.height,
            r.0@.len() == r.1.groups - self.groups_done,
            r.1.at == pos <==> r.1.groups == self.groups_done,
            forall|i: int|
                0 <= i < r.0@.len() ==> is_group_job(
                    self.plan,
                    self.received@,
                    self.groups_done + i,
                    #[trigger] &r.0@[i],
                ),
            r.0@.len() == 0 ==> self.groups_done == self.plan.groups_ready(
                self.received@.len() as int,
            ),
            r.1.groups <= caught_up(self.plan, self.received@),
    {
        proof {
            reveal(rows_in_order);
        }
        let ghost received = self.received@;
        let ghost g0 = self.groups_done as int;
        let plan: Plan = self.plan;
        let stride: usize = plan.stride;
        let total_groups: u32 = plan.groups();
        let mut jobs: Vec<RowGroup> = Vec::new();
        let mut g: u32 = self.groups_done;
        let mut rows: u32 = self.rows_done;
        let mut at: usize = pos;
        let mut above: Vec<u8> = slice_to_vec(self.above.as_slice());
        let mut starved: bool = false;
        proof {
            plan.lemma_group_count_capped();
        }
        while !starved && jobs.len() < cap && g < total_groups
            invariant
                plan.wf(),
                plan == self.plan,
                received == self.received@,
                stride == plan.stride,
                total_groups == plan.group_count(),
                total_groups <= plan.height,
                g0 == self.groups_done,
                g0 <= g <= total_groups,
                rows == plan.group_start(g as int),
                pos <= at <= self.buffer@.len(),
                self.buffer@.skip(at as int) == received.skip(rows * stride),
                received.len() - rows * stride == self.buffer@.len() - at,
                above@ == plan.row_above(received, rows as int),
                above@.len() == stride,
                jobs@.len() == g - g0,
                at == pos <==> g == g0,
                forall|i: int|
                    0 <= i < jobs@.len() ==> is_group_job(
                        plan,
                        received,
                        g0 + i,
                        #[trigger] &jobs@[i],
                    ),
                starved ==> g < total_groups && received.len() < plan.group_start(g + 1) * stride,
            decreases total_groups - g, (if starved { 0int } else { 1int }),
        {
            let next_rows: u32 = plan.first_row(g + 1);
            proof {
                plan.lemma_groups_tile(g as int);
                plan.lemma_group_bytes_fit();
                lemma_mul_ordered(
                    (next_rows - rows) as int,
                    plan.group_rows as int,
                    stride as int,
                );
                assert(next_rows * stride == rows * stride + (next_rows - rows) * stride)
                    by (nonlinear_arith);
                lemma_mul_ordered(1, (next_rows - rows) as int, stride as int);
                lemma_mul_next(0, stride as int);
            }
            let count: usize = (next_rows - rows) as usize;
            let need: usize = count * stride;
            if self.buffer.len() - at < need {
                starved = true;
            } else {
                let cut = cut_group(&plan, g, count, &above, &self.buffer, at, Ghost(received));
                above = cut.1;
                let ghost held = jobs@;
                jobs.push(cut.0);
                assert forall|i: int| 0 <= i < jobs@.len() implies is_group_job(
                    plan,
                    received,
                    g0 + i,
                    #[trigger] &jobs@[i],
                ) by {
                    if i < held.len() {
                        assert(jobs@[i] == held[i]);
                        assert(is_group_job(plan, received, g0 + i, &held[i]));
                    }
                }
                at = at + need;
                rows = next_rows;
                g = g + 1;
            }
        }
        proof {
            if jobs@.len() == 0 {
                lemma_mul_ordered(0, rows as int, stride as int);
                plan.lemma_ready_count(received.len() as int, g as int);
            }
            plan.lemma_group_start_ordered(g as int, total_groups as int);
            lemma_mul_ordered(rows as int, plan.height as int, stride as int);
            reveal(caught_up);
            plan.lemma_ready_at_least(received.len() as int, g as int);
        }
        (jobs, Reach { groups: g, rows, at, above })
    }

    /// Ends the image: closes the zlib stream, writes what is left of the
    /// image data and the end chunk, and hands the sink back.
    ///
    /// Allowed after the header. Fails, and changes nothing, unless
    /// exactly the bytes of the whole image have come.
    pub fn finish(&mut self) -> (r: Result<Vec<u8>, Error>)
        requires
            old(self).wf(),
        ensures
            final(self).wf(),
            old(self)@.state == State::Poisoned ==> r is Err && r->Err_0.has(
                ErrorKind::Internal,
                worker_failure(),
            ) && *final(self) == *old(self),
            old(self)@.state != State::Poisoned && !old(self)@.open() ==> r is Err
                && r->Err_0.has(
                    ErrorKind::InvalidState,
                    "There is no image to finish",
                ) && *final(self) == *old(self),
            old(self)@.open() && old(self)@.received.len() != old(self)@.image_size() ==> r is Err
                && r->Err_0.has(
                    ErrorKind::InvalidInput,
                    "The image is not complete",
                ) && *final(self) == *old(self),
            old(self)@.open() && old(self)@.received.len() == 0 ==> r is Err,
            old(self)@.open() && old(self)@.received.len() == old(self)@.image_size() ==> r is Ok
                && r->Ok_0@ == old(self)@.sink + old(self)@.plan().assembly(
                old(self)@.received,
                old(self)@.plan().group_count() as nat,
            ).finish_output() && final(self)@ == (EncoderView {
                state: State::Finished,
                sink: Seq::<u8>::empty(),
                ..old(self)@
            }),
    {
        match self.state {
            State::Poisoned => {
                return Err(internal("A worker failed to encode its rows"));
            },
            State::Fresh => {
                return Err(invalid_state("There is no image to finish"));
            },
            State::Finished => {
                return Err(invalid_state("There is no image to finish"));
            },
            _ => {},
        }
        proof {
            reveal(rows_in_order);
            self.header.lemma_sizes_positive();
            let plan = self.plan;
            let stride = plan.stride as int;
            let len = self.received@.len() as int;
            plan.lemma_group_count_capped();
            plan.lemma_groups_tile(0);
            lemma_mul_ordered(self.rows_done as int, plan.height as int, stride);
            if len == plan.height * stride {
                plan.lemma_ready_count(len, plan.group_count());
            }
            if self.rows_done == plan.height {
                assert(self.buffer@.len() == 0);
            } else {
                self.plan.lemma_group_start_ordered(
                    self.groups_done as int,
                    plan.group_count(),
                );
                if self.groups_done == plan.group_count() {
                    assert(false);
                }
                plan.lemma_groups_tile(self.groups_done as int);
                plan.lemma_ready_count((plan.height * stride) as int, plan.group_count());
            }
        }
        if self.rows_done != self.plan.height {
            return Err(invalid_input("The image is not complete"));
        }
        let mut reassembler: Reassembler = Reassembler::new(
            self.plan.level,
            self.plan.chunk_size,
            self.plan.streaming,
        );
        core::mem::swap(&mut reassembler, &mut self.reassembler);
        proof {
            self.plan.lemma_assembly_fixed(self.received@, self.groups_done as nat);
        }
        let sum = reassembler.finish(&mut self.writer);
        let mut writer: Writer = Writer::new(Vec::new());
        core::mem::swap(&mut writer, &mut self.writer);
        self.state = State::Finished;
        Writer::close(writer)
    }
}

/// The bytes of an optional byte string.
pub open spec fn bytes_of(data: Option<&[u8]>) -> Option<Seq<u8>> {
    match data {
        Some(bytes) => Some(bytes@),
        None => None,
    }
}

/// The length of the palette, if there is one.
pub open spec fn palette_len_of(palette: Option<&[u8]>) -> Option<usize> {
    match palette {
        Some(bytes) => Some(bytes@.len() as usize),
        None => None,
    }
}

/// Why an encoder cannot be brought up to its first row, if it cannot:
/// the text of the error, of the class of invalid input, that the first
/// of the operations to fail reports.
pub open spec fn opening_refusal(
    settings: Settings,
    header: Header,
    palette: Option<&[u8]>,
    transparency: Option<&[u8]>,
) -> Option<&'static str> {
    if !settings.valid() {
        Some("Invalid options")
    } else if !(header.valid() && header.bytes_per_row() <= usize::MAX) {
        Some(plan_fault(header, settings))
    } else if palette is Some && !palette_ok(palette->Some_0@.len() as int) {
        Some("A palette has up to 256 entries of 3 bytes")
    } else if transparency is Some && !transparency_ok(
        header.color_type,
        palette_len_of(palette),
        transparency->Some_0@.len() as int,
    ) {
        Some("Transparency data does not suit the color type")
    } else {
        None
    }
}

/// Why an image cannot be encoded, if it cannot: the text of the error,
/// of the class of invalid input, that is reported for the first thing
/// found wrong.
pub open spec fn refusal(
    settings: Settings,
    header: Header,
    palette: Option<&[u8]>,
    transparency: Option<&[u8]>,
    pixels: Seq<u8>,
) -> Option<&'static str> {
    if opening_refusal(settings, header, palette, transparency) is Some {
        opening_refusal(settings, header, palette, transparency)
    } else if !palette_present(header.color_type, palette_len_of(palette)) {
        Some("An indexed image needs its palette before its rows")
    } else if pixels.len() != header.image_size() {
        Some("The image data does not fit the header")
    } else {
        None
    }
}

/// The state of an encoder that has written the chunks before the image
/// data.
pub open spec fn opened_state(palette: Option<&[u8]>, transparency: Option<&[u8]>) -> State {
    if transparency is Some {
        State::TransparencyWritten
    } else if palette is Some {
        State::PaletteWritten
    } else {
        State::HeaderWritten
    }
}

/// A new encoder with an empty sink, brought up to its first row: the
/// header is written, and palette and transparency where given.
pub fn open_encoder<'a>(
    options: &Options<'a>,
    header: &Header,
    palette: Option<&[u8]>,
    transparency: Option<&[u8]>,
) -> (r: Result<Encoder<'a>, Error>)
    ensures
        opening_refusal(options@, *header, palette, transparency) is Some ==> r is Err
            && r->Err_0.has(
                ErrorKind::InvalidInput,
                opening_refusal(options@, *header, palette, transparency)->Some_0,
            ),
        opening_refusal(options@, *header, palette, transparency) is None ==> r is Ok
            && r->Ok_0.wf() && r->Ok_0@ == (EncoderView {
            state: opened_state(palette, transparency),
            settings: options@,
            pool: options.pool(),
            header: *header,
            palette_len: palette_len_of(palette),
            sink: signature() + chunk_bytes(tag_ihdr(), header_bytes(*header)) + palette_chunk(
                bytes_of(palette),
            ) + transparency_chunk(bytes_of(transparency)),
            received: Seq::<u8>::empty(),
            groups_done: 0,
        }),
{
    let mut encoder: Encoder<'a> = match Encoder::new(Vec::new(), options) {
        Ok(encoder) => encoder,
        Err(e) => {
            return Err(e);
        },
    };
    match encoder.write_header(header) {
        Ok(()) => {},
        Err(e) => {
            return Err(e);
        },
    }
    let ghost opened = encoder@.sink;
    assert(opened =~= signature() + chunk_bytes(tag_ihdr(), header_bytes(*header)));
    match palette {
        Some(bytes) => {
            match encoder.write_palette(bytes) {
                Ok(()) => {},
                Err(e) => {
                    return Err(e);
                },
            }
        },
        None => {
            assert(opened + palette_chunk(bytes_of(palette)) =~= opened);
        },
    }
    let ghost with_palette = encoder@.sink;
    match transparency {
        Some(bytes) => {
            match encoder.write_transparency(bytes) {
                Ok(()) => {},
                Err(e) => {
                    return Err(e);
                },
            }
        },
        None => {
            assert(with_palette + transparency_chunk(bytes_of(transparency)) =~= with_palette);
        },
    }
    Ok(encoder)
}

/// Encodes a whole image in one go: header, palette and transparency
/// where given, all rows, and the end.
///
/// An image that is acceptable is encoded if and only if the compressor
/// copes with every one of its row groups. The operations come in their
/// order, so none is refused for the state of the encoder.
///
/// The stream that comes out depends on the header, the settings and the
/// bytes given, and on nothing else: not on the thread pool, nor on the
/// number of its threads.
pub fn encode_image(
    options: &Options,
    header: &Header,
    palette: Option<&[u8]>,
    transparency: Option<&[u8]>,
    pixels: &[u8],
) -> (r: Result<Vec<u8>, Error>)
    ensures
        refusal(options@, *header, palette, transparency, pixels@) is Some ==> r is Err
            && r->Err_0.has(
                ErrorKind::InvalidInput,
                refusal(options@, *header, palette, transparency, pixels@)->Some_0,
            ),
        refusal(options@, *header, palette, transparency, pixels@) is None ==> {
            &&& r is Ok <==> plan_for(*header, options@).all_deflated(
                pixels@,
                0,
                plan_for(*header, options@).group_count(),
            )
            &&& r is Ok ==> r->Ok_0@ == png_stream(
                *header,
                options@,
                bytes_of(palette),
                bytes_of(transparency),
                pixels@,
            )
            &&& r is Err ==> r->Err_0.has(ErrorKind::Internal, worker_failure())
        },
        r is Err ==> r->Err_0.kind != ErrorKind::InvalidState,
{
    let mut encoder: Encoder = match open_encoder(options, header, palette, transparency) {
        Ok(encoder) => encoder,
        Err(e) => {
            return Err(e);
        },
    };
    if header.color_type == ColorType::IndexedColor && palette.is_none() {
        return Err(invalid_input("An indexed image needs its palette before its rows"));
    }
    if pixels.len() as u128 != encoder.bytes_missing() {
        return Err(invalid_input("The image data does not fit the header"));
    }
    encode_rest(encoder, pixels)
}

/// Gives an encoder that stands before its first row all the rows of its
/// image, and finishes it.
fn encode_rest(encoder: Encoder, pixels: &[u8]) -> (r: Result<Vec<u8>, Error>)
    requires
        encoder.wf(),
        encoder@.open(),
        encoder@.received.len() == 0,
        palette_present(encoder@.header.color_type, encoder@.palette_len),
        pixels@.len() == encoder@.image_size(),
    ensures
        r is Ok <==> encoder@.plan().all_deflated(pixels@, 0, encoder@.plan().group_count()),
        r is Ok ==> r->Ok_0@ == encoder@.sink + encoder@.plan().image_data(pixels@),
        r is Err ==> r->Err_0.has(ErrorKind::Internal, worker_failure()),
{
    let mut encoder = encoder;
    let ghost before = encoder@;
    proof {
        encoder.lemma_groups_done();
        before.plan().lemma_nothing_ready();
        assert(before.received + pixels@ =~= pixels@);
    }
    match encoder.write_image_rows(pixels) {
        Ok(()) => {},
        Err(e) => {
            return Err(e);
        },
    }
    proof {
        encoder.lemma_groups_done();
        let plan = before.plan();
        let g = plan.group_count() as nat;
        let body = plan.emitted_between(pixels@, 0, g);
        let end = plan.assembly(pixels@, g).finish_output();
        assert((before.sink + body) + end =~= before.sink + (body + end));
    }
    encoder.finish()
}

/// How far the row groups that were cut out of the buffer reach.
struct Reach {
    /// The number of groups up to the last one cut.
    groups: u32,
    /// The number of rows up to the last one cut.
    rows: u32,
    /// The place in the buffer behind the last row cut.
    at: usize,
    /// The last row cut, or what was above the first if none was.
    above: Vec<u8>,
}

/// Hands the result for group `g` to a reassembler that has taken in the
/// groups before it and no other.
fn absorb_one(
    reassembler: &mut Reassembler,
    writer: &mut Writer,
    plan: &Plan,
    done: CompressedGroup,
    Ghost(pixels): Ghost<Seq<u8>>,
    Ghost(g): Ghost<nat>,
) -> (r: Result<(), Error>)
    requires
        plan.wf(),
        old(reassembler)@ == plan.assembly(pixels, g),
        g < plan.height,
        is_group_result(*plan, pixels, g as int, &done),
    ensures
        r is Ok <==> plan.group_deflated(pixels, g as int) is Some,
        r is Ok ==> final(reassembler)@ == plan.assembly(pixels, (g + 1) as nat) && final(writer)@
            == old(writer)@ + plan.emitted_between(pixels, g, (g + 1) as nat),
        r is Err ==> r->Err_0.has(ErrorKind::Internal, worker_failure()),
{
    let ghost before = plan.assembly(pixels, g);
    proof {
        plan.lemma_assembly_fixed(pixels, g);
        before.lemma_in_turn(done);
        lemma_place_of(before.waiting, done.index as int);
        assert(before.admits(done) == (done.data is Some));
        let step = before.step_output(plan.group_blocks(pixels, g as int));
        assert(plan.emitted_between(pixels, g, g) =~= Seq::<u8>::empty());
        assert(plan.emitted_between(pixels, g, (g + 1) as nat) =~= step);
    }
    reassembler.submit(done, writer)
}

/// Hands the results for consecutive groups, the first of them group
/// `first`, to the reassembler in order.
fn absorb(
    reassembler: &mut Reassembler,
    writer: &mut Writer,
    plan: &Plan,
    results: Vec<CompressedGroup>,
    Ghost(pixels): Ghost<Seq<u8>>,
    Ghost(first): Ghost<nat>,
) -> (r: Result<(), Error>)
    requires
        plan.wf(),
        old(reassembler)@ == plan.assembly(pixels, first),
        first + results@.len() <= plan.height,
        forall|k: int|
            0 <= k < results@.len() ==> is_group_result(
                *plan,
                pixels,
                first + k,
                #[trigger] &results@[k],
            ),
    ensures
        r is Ok ==> final(reassembler)@ == plan.assembly(pixels, (first + results@.len()) as nat)
            && final(writer)@ == old(writer)@ + plan.emitted_between(
            pixels,
            first,
            (first + results@.len()) as nat,
        ),
        r is Err ==> r->Err_0.has(ErrorKind::Internal, worker_failure()),
        r is Ok <==> plan.all_deflated(pixels, first as int, (first + results@.len()) as int),
{
    let ghost sink = writer@;
    let ghost all = results@;
    let mut rest: Vec<CompressedGroup> = results;
    let mut i: usize = 0;
    assert(sink + plan.emitted_between(pixels, first, first) =~= sink);
    assert(rest@ =~= all.skip(0));
    proof {
        plan.lemma_all_deflated_empty(pixels, first as int, first as int);
    }
    while rest.len() > 0
        invariant
            i <= all.len(),
            all == results@,
            rest@ == all.skip(i as int),
            plan.wf(),
            first + all.len() <= plan.height,
            forall|k: int|
                0 <= k < all.len() ==> is_group_result(
                    *plan,
                    pixels,
                    first + k,
                    #[trigger] &all[k],
                ),
            reassembler@ == plan.assembly(pixels, (first + i) as nat),
            writer@ == sink + plan.emitted_between(pixels, first, (first + i) as nat),
            plan.all_deflated(pixels, first as int, first + i),
        decreases all.len() - i,
    {
        let ghost g = (first + i) as nat;
        let next: CompressedGroup = rest.remove(0);
        proof {
            assert(next == all[i as int]);
            assert(is_group_result(*plan, pixels, first + i, &all[i as int]));
            assert(rest@ =~= all.skip(i + 1));
        }
        match absorb_one(reassembler, writer, plan, next, Ghost(pixels), Ghost(g)) {
            Err(e) => {
                proof {
                    plan.lemma_all_deflated_fails(
                        pixels,
                        first as int,
                        g as int,
                        (first + all.len()) as int,
                    );
                }
                return Err(e);
            },
            Ok(()) => {},
        }
        proof {
            plan.lemma_all_deflated_one(pixels, g as int);
            plan.lemma_all_deflated_joins(pixels, first as int, g as int, (g + 1) as int);
            plan.lemma_emitted_extends(sink, pixels, first, g, (g + 1) as nat);
        }
        i += 1;
    }
    Ok(())
}

/// Copies a complete row group out of the buffer, with the row above it,
/// and returns it with a copy of its last row.
fn cut_group(
    plan: &Plan,
    index: u32,
    count: usize,
    above: &Vec<u8>,
    buffer: &Vec<u8>,
    at: usize,
    Ghost(received): Ghost<Seq<u8>>,
) -> (cut: (RowGroup, Vec<u8>))
    requires
        plan.wf(),
        0 <= index < plan.group_count(),
        count == plan.group_start(index + 1) - plan.group_start(index as int),
        count >= 1,
        above@ == plan.row_above(received, plan.group_start(index as int)),
        above@.len() == plan.stride,
        at + count * plan.stride <= buffer@.len(),
        buffer@.skip(at as int) == received.skip(plan.group_start(index as int) * plan.stride),
        received.len() - plan.group_start(index as int) * plan.stride == buffer@.len() - at,
    ensures
        cut.0.wf(*plan),
        cut.0.index == index,
        cut.0.filtered(*plan) == plan.group_filtered(received, index as int),
        cut.1@ == plan.row_above(received, plan.group_start(index + 1)),
        cut.1@.len() == plan.stride,
        buffer@.skip(at + count * plan.stride) == received.skip(
            plan.group_start(index + 1) * plan.stride,
        ),
{
    let stride: usize = plan.stride;
    let held: usize = buffer.len();
    let ghost lo = plan.group_start(index as int);
    let ghost hi = plan.group_start(index + 1);
    proof {
        lemma_mul_next(count as int - 1, stride as int);
        lemma_mul_ordered(0, count as int - 1, stride as int);
        lemma_mul_ordered(0, lo, stride as int);
        lemma_mul_next(hi - 1, stride as int);
        assert(hi * stride == lo * stride + count * stride) by (nonlinear_arith)
            requires
                count == hi - lo,
        ;
    }
    proof {
        reveal(Plan::filtered_rows);
    }
    let need: usize = count * stride;
    let rows: Vec<u8> = slice_to_vec(slice_subrange(buffer.as_slice(), at, at + need));
    let last: Vec<u8> = slice_to_vec(
        slice_subrange(buffer.as_slice(), at + need - stride, at + need),
    );
    let first: Vec<u8> = slice_to_vec(above.as_slice());
    proof {
        let tail = buffer@.skip(at as int);
        assert(rows@ =~= tail.take(need as int));
        assert(tail.take(need as int) =~= received.subrange(lo * stride, hi * stride));
        assert(last@ =~= tail.subrange(need - stride, need as int));
        assert(tail.subrange(need - stride, need as int) =~= row_at(
            received,
            stride as int,
            hi - 1,
        ));
        assert(buffer@.skip(at + need) =~= tail.skip(need as int));
        assert(tail.skip(need as int) =~= received.skip(hi * stride));
    }
    (RowGroup { index, count, above: first, rows }, last)
}

} // verus!
