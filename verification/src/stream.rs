//! What an encoding amounts to: the state of the reassembly after any
//! number of row groups, the bytes that have gone to the sink by then,
//! and the zlib stream that the image data chunks carry in the end.

use vstd::prelude::*;
use crate::checksum::{adler32, lemma_adler32_concat};
use crate::filter::{encoded_row, lemma_encoded_row_round_trip, restored_row, zero_row};
use crate::header::Header;
use crate::options::{Filter, Mode, Settings};
use crate::plan::{
    block_row_above, filtered_block, lemma_filtered_block_len, lemma_mul_next, lemma_mul_ordered,
    plan_for, row_at, Plan,
};
use crate::reassemble::{Assembly, IDAT_LIMIT};
use crate::writer::{
    be32, chunk_bytes, chunked, header_bytes, lemma_chunk_len, lemma_header_bytes_len, signature,
    tag_idat, tag_iend, tag_ihdr, tag_plte, tag_trns,
};
use crate::zlib::{final_block, zlib_header};

verus! {

impl Plan {
    /// The state of the reassembly once the first `g` groups of the image
    /// in `pixels` have passed.
    pub open spec fn assembly(self, pixels: Seq<u8>, g: nat) -> Assembly
        decreases g,
    {
        if g == 0 {
            Assembly::start(self.level, self.chunk_size, self.streaming)
        } else {
            let i = (g - 1) as nat;
            let filtered = self.group_filtered(pixels, i as int);
            self.assembly(pixels, i).step(
                adler32(filtered),
                filtered.len(),
                self.group_blocks(pixels, i as int),
            )
        }
    }

    /// The bytes that go to the sink while groups `from` to `to - 1` pass.
    pub open spec fn emitted_between(self, pixels: Seq<u8>, from: nat, to: nat) -> Seq<u8>
        decreases to,
    {
        if to <= from {
            Seq::<u8>::empty()
        } else {
            let i = (to - 1) as nat;
            self.emitted_between(pixels, from, i) + self.assembly(pixels, i).step_output(
                self.group_blocks(pixels, i as int),
            )
        }
    }

    /// The number of groups whose rows are all among the first `len` bytes
    /// of the image.
    pub open spec fn groups_ready(self, len: int) -> int {
        let rows = len / (self.stride as int);
        if rows >= self.height {
            self.group_count()
        } else {
            rows / (self.group_rows as int)
        }
    }

    /// No group is ready before any byte has come.
    pub proof fn lemma_nothing_ready(self)
        requires
            self.wf(),
        ensures
            self.groups_ready(0) == 0,
    {
    }

    /// The rows of a full group fit in memory: they take no more bytes
    /// than the larger of a row and the chunk size.
    pub proof fn lemma_group_bytes_fit(self)
        requires
            self.wf(),
        ensures
            self.group_rows * self.stride <= usize::MAX,
    {
        let c = self.chunk_size as int;
        let s = self.stride as int;
        if c / s >= 1 {
            assert((c / s) * s <= c) by (nonlinear_arith)
                requires
                    s >= 1,
                    c >= 0,
            ;
        } else {
            lemma_mul_next(0, s);
        }
    }

    /// The groups that are ready are exactly those before the first group
    /// whose rows have not all come.
    pub proof fn lemma_ready_count(self, len: int, g: int)
        requires
            self.wf(),
            0 <= g <= self.group_count(),
            self.group_start(g) * self.stride <= len,
            g == self.group_count() || len < self.group_start(g + 1) * self.stride,
        ensures
            self.groups_ready(len) == g,
    {
        let s = self.stride as int;
        let n = self.group_rows as int;
        let rows = len / s;
        let lo = self.group_start(g);
        self.lemma_group_count_capped();
        assert(rows >= lo) by (nonlinear_arith)
            requires
                lo * s <= len,
                s >= 1,
                rows == len / s,
        ;
        if g == self.group_count() {
            self.lemma_groups_tile(0);
        } else {
            self.lemma_groups_tile(g);
            let hi = self.group_start(g + 1);
            assert(rows < hi) by (nonlinear_arith)
                requires
                    len < hi * s,
                    s >= 1,
                    rows == len / s,
            ;
            assert(rows / n == g) by (nonlinear_arith)
                requires
                    g * n <= rows < g * n + n,
                    n >= 1,
            ;
        }
    }

    /// A group whose rows have all come is among the groups that are
    /// ready.
    pub proof fn lemma_ready_at_least(self, len: int, g: int)
        requires
            self.wf(),
            0 <= g <= self.group_count(),
            self.group_start(g) * self.stride <= len,
        ensures
            g <= self.groups_ready(len),
    {
        let s = self.stride as int;
        let n = self.group_rows as int;
        let rows = len / s;
        let lo = self.group_start(g);
        assert(rows >= lo) by (nonlinear_arith)
            requires
                lo * s <= len,
                s >= 1,
                rows == len / s,
        ;
        if rows < self.height {
            assert(lo == g * n);
            assert(g <= rows / n) by (nonlinear_arith)
                requires
                    g * n <= rows,
                    n >= 1,
                    g >= 0,
            ;
        }
    }

    /// Once the bytes of the whole image have come, every group is ready.
    pub proof fn lemma_whole_image_ready(self)
        requires
            self.wf(),
        ensures
            self.groups_ready(self.height * self.stride) == self.group_count(),
    {
        self.lemma_group_count_capped();
        self.lemma_groups_tile(0);
        self.lemma_ready_count(self.height * self.stride, self.group_count());
    }

    /// The deflate blocks of the first `g` groups, one group after the
    /// other.
    pub open spec fn deflated_upto(self, pixels: Seq<u8>, g: nat) -> Seq<u8>
        decreases g,
    {
        if g == 0 {
            Seq::<u8>::empty()
        } else {
            let i = (g - 1) as nat;
            self.deflated_upto(pixels, i) + self.group_blocks(pixels, i as int)
        }
    }

    /// The zlib stream of the image: the header, the deflate blocks of all
    /// groups, one empty block that is marked as the last, and the
    /// Adler-32 checksum of all filtered bytes.
    pub open spec fn zlib_stream(self, pixels: Seq<u8>) -> Seq<u8> {
        zlib_header(self.level) + self.deflated_upto(pixels, self.group_count() as nat)
            + final_block() + be32(adler32(self.filtered_rows(pixels, 0, self.height as int)))
    }

    /// All that follows the chunks before the image data: the image data
    /// chunks and the end chunk.
    pub open spec fn image_data(self, pixels: Seq<u8>) -> Seq<u8> {
        let g = self.group_count() as nat;
        self.emitted_between(pixels, 0, g) + self.assembly(pixels, g).finish_output()
    }

    /// The settings and the count of groups stay as they began.
    pub proof fn lemma_assembly_fixed(self, pixels: Seq<u8>, g: nat)
        ensures
            self.assembly(pixels, g).next == g,
            self.assembly(pixels, g).level == self.level,
            self.assembly(pixels, g).chunk_size == self.chunk_size,
            self.assembly(pixels, g).streaming == self.streaming,
            self.assembly(pixels, g).waiting.len() == 0,
        decreases g,
    {
        if g > 0 {
            self.lemma_assembly_fixed(pixels, (g - 1) as nat);
        }
    }

    /// The first rows of the groups never go down, and stay within the
    /// image.
    pub proof fn lemma_group_start_ordered(self, g: int, h: int)
        requires
            self.wf(),
            0 <= g <= h,
        ensures
            0 <= self.group_start(g) <= self.group_start(h) <= self.height,
    {
        lemma_mul_ordered(g, h, self.group_rows as int);
    }

    /// What the first `g` groups do to the reassembly does not depend on
    /// the bytes that follow them in memory.
    pub proof fn lemma_assembly_stable(self, pixels: Seq<u8>, extra: Seq<u8>, g: nat)
        requires
            self.wf(),
            self.group_start(g as int) * self.stride <= pixels.len(),
        ensures
            self.assembly(pixels + extra, g) == self.assembly(pixels, g),
        decreases g,
    {
        if g > 0 {
            let i = (g - 1) as nat;
            self.lemma_group_start_ordered(i as int, g as int);
            lemma_mul_ordered(
                self.group_start(i as int),
                self.group_start(g as int),
                self.stride as int,
            );
            self.lemma_assembly_stable(pixels, extra, i);
            self.lemma_filtered_rows_stable(
                pixels,
                extra,
                self.group_start(i as int),
                self.group_start(g as int),
            );
        }
    }

    /// What goes to the sink while groups pass does not depend on the
    /// bytes that follow them in memory.
    pub proof fn lemma_emitted_stable(self, pixels: Seq<u8>, extra: Seq<u8>, from: nat, to: nat)
        requires
            self.wf(),
            self.group_start(to as int) * self.stride <= pixels.len(),
        ensures
            self.emitted_between(pixels + extra, from, to) == self.emitted_between(
                pixels,
                from,
                to,
            ),
        decreases to,
    {
        if to > from {
            let i = (to - 1) as nat;
            self.lemma_group_start_ordered(i as int, to as int);
            lemma_mul_ordered(
                self.group_start(i as int),
                self.group_start(to as int),
                self.stride as int,
            );
            self.lemma_emitted_stable(pixels, extra, from, i);
            self.lemma_assembly_stable(pixels, extra, i);
            self.lemma_filtered_rows_stable(
                pixels,
                extra,
                self.group_start(i as int),
                self.group_start(to as int),
            );
        }
    }

    /// What goes to the sink over a run of groups is what goes over its
    /// first part, then what goes over the rest.
    pub proof fn lemma_emitted_joins(self, pixels: Seq<u8>, from: nat, mid: nat, to: nat)
        requires
            from <= mid <= to,
        ensures
            self.emitted_between(pixels, from, to) == self.emitted_between(pixels, from, mid)
                + self.emitted_between(pixels, mid, to),
        decreases to,
    {
        if to == mid {
            assert(self.emitted_between(pixels, from, mid) + Seq::<u8>::empty()
                =~= self.emitted_between(pixels, from, mid));
        } else {
            let i = (to - 1) as nat;
            self.lemma_emitted_joins(pixels, from, mid, i);
            let last = self.assembly(pixels, i).step_output(self.group_blocks(pixels, i as int));
            assert((self.emitted_between(pixels, from, mid) + self.emitted_between(pixels, mid, i))
                + last =~= self.emitted_between(pixels, from, mid) + (self.emitted_between(
                pixels,
                mid,
                i,
            ) + last));
        }
    }

    /// What has gone to a sink over a run of groups, and then over the
    /// groups that follow, has gone to it over both runs together.
    pub proof fn lemma_emitted_extends(
        self,
        sink: Seq<u8>,
        pixels: Seq<u8>,
        from: nat,
        mid: nat,
        to: nat,
    )
        requires
            from <= mid <= to,
        ensures
            (sink + self.emitted_between(pixels, from, mid)) + self.emitted_between(
                pixels,
                mid,
                to,
            ) == sink + self.emitted_between(pixels, from, to),
    {
        self.lemma_emitted_joins(pixels, from, mid, to);
        let first = self.emitted_between(pixels, from, mid);
        let second = self.emitted_between(pixels, mid, to);
        assert((sink + first) + second =~= sink + (first + second));
    }

    /// After any number of groups the running checksum is the Adler-32 of
    /// all the filtered bytes from the first row of the image to the last
    /// row of those groups.
    pub proof fn lemma_assembly_checksum(self, pixels: Seq<u8>, g: nat)
        requires
            self.wf(),
            self.group_start(g as int) * self.stride <= pixels.len(),
        ensures
            self.assembly(pixels, g).adler == adler32(
                self.filtered_rows(pixels, 0, self.group_start(g as int)),
            ),
        decreases g,
    {
        lemma_mul_next(0, self.group_rows as int);
        lemma_mul_next(0, self.stride as int);
        if g == 0 {
            reveal(Plan::filtered_rows);
            assert(self.group_start(0) == 0);
            assert(self.filtered_rows(pixels, 0, 0) =~= Seq::<u8>::empty());
        } else {
            let i = (g - 1) as nat;
            let lo = self.group_start(i as int);
            let hi = self.group_start(g as int);
            self.lemma_group_start_ordered(i as int, g as int);
            lemma_mul_ordered(lo, hi, self.stride as int);
            self.lemma_assembly_checksum(pixels, i);
            self.lemma_filtered_rows_split(pixels, 0, lo, hi);
            lemma_adler32_concat(
                self.filtered_rows(pixels, 0, lo),
                self.filtered_rows(pixels, lo, hi),
            );
        }
    }

    /// After at least one group, what was written as chunk data and what
    /// waits make up the zlib header and the deflate blocks of the groups
    /// so far, in order; before the first group there is nothing.
    pub proof fn lemma_assembly_stream(self, pixels: Seq<u8>, g: nat)
        ensures
            g == 0 ==> self.assembly(pixels, g).stream() == Seq::<u8>::empty(),
            g > 0 ==> self.assembly(pixels, g).stream() == zlib_header(self.level)
                + self.deflated_upto(pixels, g),
        decreases g,
    {
        if g == 0 {
            assert(self.assembly(pixels, g).stream() =~= Seq::<u8>::empty());
        } else {
            let i = (g - 1) as nat;
            self.lemma_assembly_stream(pixels, i);
            self.lemma_assembly_fixed(pixels, i);
            let before = self.assembly(pixels, i);
            let filtered = self.group_filtered(pixels, i as int);
            let data = self.group_blocks(pixels, i as int);
            before.lemma_step_stream(adler32(filtered), filtered.len(), data);
            let head = zlib_header(self.level);
            if i == 0 {
                assert(before.stream() + before.opening() + data =~= head + (Seq::<u8>::empty()
                    + data));
            } else {
                assert(before.stream() + before.opening() + data =~= head + (self.deflated_upto(
                    pixels,
                    i,
                ) + data));
            }
        }
    }

    /// Once all groups have passed, finishing gives the zlib stream of the
    /// image: the blocks of every group in order, then exactly one block
    /// that is marked as the last, then the checksum of all filtered
    /// bytes of the image.
    pub proof fn lemma_finished_stream(self, pixels: Seq<u8>)
        requires
            self.wf(),
            self.height * self.stride <= pixels.len(),
        ensures
            self.assembly(pixels, self.group_count() as nat).finished_stream() == self.zlib_stream(
                pixels,
            ),
    {
        let g = self.group_count() as nat;
        let end = self.assembly(pixels, g);
        assert(g >= 1 && self.group_start(g as int) == self.height) by {
            self.lemma_group_count_capped();
            self.lemma_groups_tile(0);
        }
        assert(end.stream() == zlib_header(self.level) + self.deflated_upto(pixels, g)) by {
            self.lemma_assembly_stream(pixels, g);
        }
        assert(end.opening() == Seq::<u8>::empty()) by {
            self.lemma_assembly_fixed(pixels, g);
        }
        assert(end.adler == adler32(self.filtered_rows(pixels, 0, self.height as int))) by {
            self.lemma_assembly_checksum(pixels, g);
        }
        end.lemma_finished_stream();
        assert(end.stream() + Seq::<u8>::empty() =~= end.stream());
    }

    /// Without streaming nothing goes to the sink before the end, and then
    /// the whole zlib stream goes out as image data, cut only where a
    /// chunk would exceed the limit, followed by the end chunk.
    pub proof fn lemma_image_data_in_one(self, pixels: Seq<u8>)
        requires
            self.wf(),
            !self.streaming,
            self.height * self.stride <= pixels.len(),
        ensures
            self.image_data(pixels) == chunked(
                tag_idat(),
                self.zlib_stream(pixels),
                IDAT_LIMIT as int,
            ) + chunk_bytes(tag_iend(), Seq::<u8>::empty()),
    {
        let g = self.group_count() as nat;
        self.lemma_nothing_emitted(pixels, g);
        self.lemma_nothing_flushed(pixels, g);
        self.lemma_finished_stream(pixels);
        let end = self.assembly(pixels, g);
        self.lemma_assembly_fixed(pixels, g);
        assert(end.finished_stream() =~= end.tail() + be32(end.adler));
        assert(self.image_data(pixels) =~= end.finish_output());
    }

    proof fn lemma_nothing_flushed(self, pixels: Seq<u8>, g: nat)
        requires
            !self.streaming,
        ensures
            self.assembly(pixels, g).flushed == Seq::<u8>::empty(),
        decreases g,
    {
        if g > 0 {
            self.lemma_nothing_flushed(pixels, (g - 1) as nat);
            self.lemma_assembly_fixed(pixels, (g - 1) as nat);
        }
    }

    proof fn lemma_nothing_emitted(self, pixels: Seq<u8>, g: nat)
        requires
            !self.streaming,
        ensures
            self.emitted_between(pixels, 0, g) == Seq::<u8>::empty(),
        decreases g,
    {
        if g > 0 {
            self.lemma_nothing_emitted(pixels, (g - 1) as nat);
            self.lemma_assembly_fixed(pixels, (g - 1) as nat);
            assert(self.emitted_between(pixels, 0, g) =~= Seq::<u8>::empty());
        }
    }

    /// The filtered bytes of a range of rows have one byte more than the
    /// row for every row.
    pub proof fn lemma_filtered_len(self, pixels: Seq<u8>, lo: int, hi: int)
        requires
            self.wf(),
            0 <= lo <= hi,
            hi * self.stride <= pixels.len(),
        ensures
            self.filtered_rows(pixels, lo, hi).len() == (hi - lo) * (self.stride + 1),
    {
        reveal(Plan::filtered_rows);
        let s = self.stride as int;
        lemma_mul_ordered(lo, hi, s);
        assert(hi * s - lo * s == (hi - lo) * s) by (nonlinear_arith);
        lemma_filtered_block_len(
            self.filter_mode,
            self.bpp as int,
            s,
            self.row_above(pixels, lo),
            pixels.subrange(lo * s, hi * s),
            (hi - lo) as nat,
        );
    }
}

impl Plan {
    /// One row enters the compressor as its filter-type byte, then its
    /// bytes filtered against the row above it.
    pub proof fn lemma_filtered_single_row(self, pixels: Seq<u8>, r: int)
        requires
            self.wf(),
            0 <= r,
            (r + 1) * self.stride <= pixels.len(),
        ensures
            self.filtered_rows(pixels, r, r + 1) == encoded_row(
                self.filter_mode,
                self.bpp as int,
                self.row_above(pixels, r),
                row_at(pixels, self.stride as int, r),
            ),
    {
        reveal(Plan::filtered_rows);
        let s = self.stride as int;
        lemma_mul_next(r, s);
        lemma_mul_next(0, s);
        lemma_mul_ordered(0, r, s);
        let block = pixels.subrange(r * s, (r + 1) * s);
        assert(row_at(block, s, 0) =~= row_at(pixels, s, r));
        let above = self.row_above(pixels, r);
        let mode = self.filter_mode;
        let bpp = self.bpp as int;
        assert(filtered_block(mode, bpp, s, above, block, 0) =~= Seq::<u8>::empty());
        assert(filtered_block(mode, bpp, s, above, block, 1) == filtered_block(
            mode,
            bpp,
            s,
            above,
            block,
            0,
        ) + encoded_row(mode, bpp, above, row_at(block, s, 0)));
        assert(Seq::<u8>::empty() + encoded_row(mode, bpp, above, row_at(block, s, 0))
            =~= encoded_row(mode, bpp, above, row_at(block, s, 0)));
    }

    /// Within the filtered bytes of a range of rows, each row stands
    /// behind the rows before it: its filter-type byte, then its bytes
    /// filtered against the row above it.
    pub proof fn lemma_filtered_row_at(self, pixels: Seq<u8>, lo: int, hi: int, r: int)
        requires
            self.wf(),
            0 <= lo <= r < hi,
            hi * self.stride <= pixels.len(),
        ensures
            self.filtered_rows(pixels, lo, r).len() + self.stride + 1 <= self.filtered_rows(
                pixels,
                lo,
                hi,
            ).len(),
            self.filtered_rows(pixels, lo, hi).subrange(
                self.filtered_rows(pixels, lo, r).len() as int,
                self.filtered_rows(pixels, lo, r).len() + self.stride + 1,
            ) == encoded_row(
                self.filter_mode,
                self.bpp as int,
                self.row_above(pixels, r),
                row_at(pixels, self.stride as int, r),
            ),
    {
        let head = self.filtered_rows(pixels, lo, r);
        let row = self.filtered_rows(pixels, r, r + 1);
        let tail = self.filtered_rows(pixels, r + 1, hi);
        let all = self.filtered_rows(pixels, lo, hi);
        assert((r + 1) * self.stride <= hi * self.stride) by {
            lemma_mul_ordered(r + 1, hi, self.stride as int);
        }
        assert(all == head + (row + tail)) by {
            self.lemma_filtered_rows_split(pixels, lo, r, hi);
            self.lemma_filtered_rows_split(pixels, r, r + 1, hi);
        }
        assert(row.len() == self.stride + 1) by {
            self.lemma_filtered_len(pixels, r, r + 1);
            lemma_mul_next(0, self.stride + 1);
        }
        assert(all.len() == head.len() + row.len() + tail.len());
        lemma_middle_part(head, row, tail);
        self.lemma_filtered_single_row(pixels, r);
    }

    /// With a fixed filter every row of the image enters the compressor
    /// led by the type byte of that filter.
    pub proof fn lemma_fixed_filter_type_bytes(self, pixels: Seq<u8>, f: Filter, r: int)
        requires
            self.wf(),
            self.filter_mode == Mode::Fixed(f),
            0 <= r < self.height,
            self.height * self.stride <= pixels.len(),
        ensures
            0 <= r * (self.stride + 1) < self.filtered_rows(pixels, 0, self.height as int).len(),
            self.filtered_rows(pixels, 0, self.height as int)[r * (self.stride + 1)] == f.code(),
    {
        let all = self.filtered_rows(pixels, 0, self.height as int);
        let head = self.filtered_rows(pixels, 0, r);
        self.lemma_filtered_row_at(pixels, 0, self.height as int, r);
        assert(head.len() == r * (self.stride + 1)) by {
            lemma_mul_ordered(r, self.height as int, self.stride as int);
            self.lemma_filtered_len(pixels, 0, r);
        }
        let row = all.subrange(head.len() as int, head.len() + self.stride + 1);
        assert(row[0] == all[head.len() as int]);
    }

    /// The zlib stream of an image ends with the Adler-32 checksum of all
    /// its filtered bytes, most significant byte first.
    pub proof fn lemma_stream_ends_with_checksum(self, pixels: Seq<u8>)
        ensures
            self.zlib_stream(pixels).len() >= 4,
            self.zlib_stream(pixels).skip(self.zlib_stream(pixels).len() - 4) == be32(
                adler32(self.filtered_rows(pixels, 0, self.height as int)),
            ),
    {
        let sum = be32(adler32(self.filtered_rows(pixels, 0, self.height as int)));
        let stream = self.zlib_stream(pixels);
        assert(stream.skip(stream.len() - 4) =~= sum);
    }

    /// Rows may come in any number of calls: what goes to the sink while
    /// the first bytes pass, and then while the rest passes, is what goes
    /// to it when all bytes pass at once.
    pub proof fn lemma_rows_in_parts(self, first: Seq<u8>, rest: Seq<u8>, mid: nat, to: nat)
        requires
            self.wf(),
            mid <= to,
            self.group_start(mid as int) * self.stride <= first.len(),
        ensures
            self.emitted_between(first, 0, mid) + self.emitted_between(first + rest, mid, to)
                == self.emitted_between(first + rest, 0, to),
    {
        self.lemma_emitted_stable(first, rest, 0, mid);
        self.lemma_emitted_joins(first + rest, 0, mid, to);
    }
}

/// The first `count` rows that a decoder restores from filtered bytes:
/// each row from its `stride + 1` bytes and the restored row above it,
/// with `above` standing above the first.
pub open spec fn restored_block(
    bpp: int,
    stride: int,
    above: Seq<u8>,
    filtered: Seq<u8>,
    count: nat,
) -> Seq<u8>
    decreases count,
{
    if count == 0 {
        Seq::<u8>::empty()
    } else {
        let j = (count - 1) as nat;
        let before = restored_block(bpp, stride, above, filtered, j);
        before + restored_row(
            bpp,
            block_row_above(above, before, stride, j as int),
            filtered.subrange(j * (stride + 1), (j + 1) * (stride + 1)),
        )
    }
}

impl Plan {
    /// The image that a decoder restores from the filtered bytes of all
    /// rows.
    pub open spec fn restored_image(self, filtered: Seq<u8>) -> Seq<u8> {
        restored_block(
            self.bpp as int,
            self.stride as int,
            zero_row(self.stride as nat),
            filtered,
            self.height as nat,
        )
    }

    proof fn lemma_restored_rows(self, pixels: Seq<u8>, k: nat)
        requires
            self.wf(),
            k <= self.height,
            pixels.len() == self.height * self.stride,
        ensures
            k * self.stride <= pixels.len(),
            restored_block(
                self.bpp as int,
                self.stride as int,
                zero_row(self.stride as nat),
                self.filtered_rows(pixels, 0, self.height as int),
                k,
            ) == pixels.take(k * self.stride),
        decreases k,
    {
        let s = self.stride as int;
        let bpp = self.bpp as int;
        let above = zero_row(self.stride as nat);
        let all = self.filtered_rows(pixels, 0, self.height as int);
        lemma_mul_ordered(k as int, self.height as int, s);
        if k == 0 {
            lemma_mul_next(0, s);
            assert(pixels.take(0) =~= Seq::<u8>::empty());
        } else {
            let j = (k - 1) as nat;
            self.lemma_restored_rows(pixels, j);
            let before = restored_block(bpp, s, above, all, j);
            assert(before == pixels.take(j * s));
            lemma_mul_next(j as int, s);
            lemma_mul_ordered(0, j as int, s);
            // The bytes of row j among the filtered bytes.
            self.lemma_filtered_row_at(pixels, 0, self.height as int, j as int);
            assert(self.filtered_rows(pixels, 0, j as int).len() == j * (s + 1)) by {
                self.lemma_filtered_len(pixels, 0, j as int);
            }
            lemma_mul_next(j as int, s + 1);
            let encoded = all.subrange(j * (s + 1), (j + 1) * (s + 1));
            let row = row_at(pixels, s, j as int);
            let prev = self.row_above(pixels, j as int);
            assert(encoded == encoded_row(self.filter_mode, bpp, prev, row));
            // The row above row j among the rows restored so far.
            assert(block_row_above(above, before, s, j as int) == prev) by {
                if j > 0 {
                    lemma_mul_next(j as int - 1, s);
                    lemma_mul_ordered(0, j as int - 1, s);
                    assert(row_at(before, s, j as int - 1) =~= row_at(pixels, s, j as int - 1));
                }
            }
            assert(row.len() == s) by {
                assert(0 <= j * s && (j + 1) * s == k * s && k * s <= pixels.len());
            }
            assert(prev.len() == s) by {
                if j > 0 {
                    lemma_mul_next(j as int - 1, s);
                    lemma_mul_ordered(0, j as int - 1, s);
                }
            }
            lemma_encoded_row_round_trip(self.filter_mode, bpp, prev, row);
            assert(pixels.take(k * s) =~= pixels.take(j * s) + row);
        }
    }

    /// A decoder that undoes the filters restores the image: from the
    /// bytes that enter the compressor, row by row, it gets back exactly
    /// the pixel bytes that were given, in every filter mode.
    pub proof fn lemma_image_round_trip(self, pixels: Seq<u8>)
        requires
            self.wf(),
            pixels.len() == self.height * self.stride,
        ensures
            self.restored_image(self.filtered_rows(pixels, 0, self.height as int)) == pixels,
    {
        self.lemma_restored_rows(pixels, self.height as nat);
        assert(pixels.take(self.height * self.stride) =~= pixels);
    }
}

/// The middle of three byte strings joined lies behind the first, at its
/// own length.
pub proof fn lemma_middle_part(head: Seq<u8>, middle: Seq<u8>, tail: Seq<u8>)
    ensures
        (head + (middle + tail)).subrange(head.len() as int, (head.len() + middle.len()) as int)
            == middle,
{
    assert((head + (middle + tail)).subrange(head.len() as int, (head.len() + middle.len()) as int)
        =~= middle);
}

/// The chunk that carries a palette, or nothing.
pub open spec fn palette_chunk(palette: Option<Seq<u8>>) -> Seq<u8> {
    match palette {
        Some(p) => chunk_bytes(tag_plte(), p),
        None => Seq::<u8>::empty(),
    }
}

/// The chunk that carries transparency, or nothing.
pub open spec fn transparency_chunk(transparency: Option<Seq<u8>>) -> Seq<u8> {
    match transparency {
        Some(t) => chunk_bytes(tag_trns(), t),
        None => Seq::<u8>::empty(),
    }
}

/// The whole PNG stream of an image: the signature, the header chunk, the
/// palette and transparency chunks where there are any, the image data
/// chunks, and the end chunk.
pub open spec fn png_stream(
    header: Header,
    settings: Settings,
    palette: Option<Seq<u8>>,
    transparency: Option<Seq<u8>>,
    pixels: Seq<u8>,
) -> Seq<u8> {
    signature() + chunk_bytes(tag_ihdr(), header_bytes(header)) + palette_chunk(palette)
        + transparency_chunk(transparency) + plan_for(header, settings).image_data(pixels)
}

/// The PNG stream of an image is what stands before the image data, then
/// what goes to the sink while the groups pass, then what goes to it at
/// the end.
pub proof fn lemma_png_stream_parts(
    header: Header,
    settings: Settings,
    palette: Option<Seq<u8>>,
    transparency: Option<Seq<u8>>,
    pixels: Seq<u8>,
)
    ensures
        png_stream(header, settings, palette, transparency, pixels) == (signature() + chunk_bytes(
            tag_ihdr(),
            header_bytes(header),
        ) + palette_chunk(palette) + transparency_chunk(transparency)) + plan_for(
            header,
            settings,
        ).emitted_between(pixels, 0, plan_for(header, settings).group_count() as nat)
            + plan_for(header, settings).assembly(
            pixels,
            plan_for(header, settings).group_count() as nat,
        ).finish_output(),
{
    let plan = plan_for(header, settings);
    let g = plan.group_count() as nat;
    let before = signature() + chunk_bytes(tag_ihdr(), header_bytes(header)) + palette_chunk(
        palette,
    ) + transparency_chunk(transparency);
    let body = plan.emitted_between(pixels, 0, g);
    let end = plan.assembly(pixels, g).finish_output();
    assert(before + (body + end) =~= before + body + end);
}

/// Joining byte strings does not depend on how they are grouped.
pub proof fn lemma_join_grouping(a: Seq<u8>, b: Seq<u8>, c: Seq<u8>)
    ensures
        (a + b) + c == a + (b + c),
{
    assert((a + b) + c =~= a + (b + c));
}

/// A byte string that is joined from two opens with the first.
pub proof fn lemma_opens_with(first: Seq<u8>, rest: Seq<u8>)
    ensures
        (first + rest).subrange(0, first.len() as int) == first,
{
    assert((first + rest).subrange(0, first.len() as int) =~= first);
}

/// A byte string that is joined from two closes with the second.
pub proof fn lemma_closes_with(front: Seq<u8>, last: Seq<u8>)
    ensures
        (front + last).len() == front.len() + last.len(),
        (front + last).skip((front + last).len() - last.len()) == last,
{
    assert((front + last).skip((front + last).len() - last.len()) =~= last);
}

/// The header chunk has 25 bytes and the end chunk 12.
pub proof fn lemma_frame_lengths(header: Header)
    ensures
        signature().len() == 8,
        chunk_bytes(tag_ihdr(), header_bytes(header)).len() == 25,
        chunk_bytes(tag_iend(), Seq::<u8>::empty()).len() == 12,
{
    lemma_header_bytes_len(header);
    lemma_chunk_len(tag_ihdr(), header_bytes(header));
    lemma_chunk_len(tag_iend(), Seq::<u8>::empty());
}

/// A PNG stream is the signature, the header chunk, and what follows
/// them; and it is what stands before the end chunk, and the end chunk.
pub proof fn lemma_png_stream_ends(
    header: Header,
    settings: Settings,
    palette: Option<Seq<u8>>,
    transparency: Option<Seq<u8>>,
    pixels: Seq<u8>,
) -> (parts: (Seq<u8>, Seq<u8>))
    ensures
        png_stream(header, settings, palette, transparency, pixels) == signature() + (chunk_bytes(
            tag_ihdr(),
            header_bytes(header),
        ) + parts.0),
        png_stream(header, settings, palette, transparency, pixels) == parts.1 + chunk_bytes(
            tag_iend(),
            Seq::<u8>::empty(),
        ),
        parts.0.len() >= chunk_bytes(tag_iend(), Seq::<u8>::empty()).len(),
{
    let plan = plan_for(header, settings);
    let g = plan.group_count() as nat;
    let sig = signature();
    let first = chunk_bytes(tag_ihdr(), header_bytes(header));
    let pal = palette_chunk(palette);
    let trns = transparency_chunk(transparency);
    let image = plan.image_data(pixels);
    let last = chunk_bytes(tag_iend(), Seq::<u8>::empty());
    let emitted = plan.emitted_between(pixels, 0, g);
    let end = plan.assembly(pixels, g);
    let data = if end.streaming {
        chunked(tag_idat(), end.tail(), IDAT_LIMIT as int) + chunk_bytes(
            tag_idat(),
            be32(end.adler),
        )
    } else {
        chunked(tag_idat(), end.tail() + be32(end.adler), IDAT_LIMIT as int)
    };
    assert(end.finish_output() == data + last);
    assert(image.len() == emitted.len() + data.len() + last.len());
    let whole = png_stream(header, settings, palette, transparency, pixels);
    assert(whole == sig + first + pal + trns + image);
    // From the front.
    lemma_join_grouping(sig + first, pal, trns);
    lemma_join_grouping(sig + first, pal + trns, image);
    lemma_join_grouping(sig, first, (pal + trns) + image);
    // From the back.
    lemma_join_grouping(emitted, data, last);
    lemma_join_grouping(sig + first + pal + trns, emitted + data, last);
    ((pal + trns) + image, (sig + first + pal + trns) + (emitted + data))
}

/// A PNG stream opens with the signature and the header chunk and closes
/// with the end chunk.
pub proof fn lemma_png_stream_frame(
    header: Header,
    settings: Settings,
    palette: Option<Seq<u8>>,
    transparency: Option<Seq<u8>>,
    pixels: Seq<u8>,
)
    ensures
        png_stream(header, settings, palette, transparency, pixels).len() >= 45,
        png_stream(header, settings, palette, transparency, pixels).subrange(0, 8) == signature(),
        png_stream(header, settings, palette, transparency, pixels).subrange(8, 33) == chunk_bytes(
            tag_ihdr(),
            header_bytes(header),
        ),
        png_stream(header, settings, palette, transparency, pixels).skip(
            png_stream(header, settings, palette, transparency, pixels).len() - 12,
        ) == chunk_bytes(tag_iend(), Seq::<u8>::empty()),
{
    let whole = png_stream(header, settings, palette, transparency, pixels);
    let sig = signature();
    let first = chunk_bytes(tag_ihdr(), header_bytes(header));
    let last = chunk_bytes(tag_iend(), Seq::<u8>::empty());
    let parts = lemma_png_stream_ends(header, settings, palette, transparency, pixels);
    lemma_frame_lengths(header);
    lemma_opens_with(sig, first + parts.0);
    lemma_opens_with(first, parts.0);
    lemma_closes_with(parts.1, last);
    lemma_header_behind_signature(sig, first, parts.0);
    assert(whole.len() == sig.len() + first.len() + parts.0.len());
}

/// What follows the first of three byte strings joined opens with the
/// second.
proof fn lemma_header_behind_signature(sig: Seq<u8>, first: Seq<u8>, rest: Seq<u8>)
    ensures
        (sig + (first + rest)).subrange(sig.len() as int, (sig.len() + first.len()) as int)
            == first,
{
    assert((sig + (first + rest)).subrange(sig.len() as int, (sig.len() + first.len()) as int)
        =~= first);
}

} // verus!
