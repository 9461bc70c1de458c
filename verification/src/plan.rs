//! The plan of an encoding: how the image lies in memory, how its rows are
//! cut into groups, and what each group is to become.

use vstd::prelude::*;
use vstd::slice::slice_subrange;
use crate::error::{invalid_input, Error, ErrorKind};
use crate::filter::{encode_row, encoded_row, zero_row};
use crate::header::Header;
use crate::options::{CompressionLevel, Filter, Mode, Settings, Strategy};
use crate::zlib::deflate_blocks;

verus! {

/// Row `r` of an image held row after row in `pixels`.
pub open spec fn row_at(pixels: Seq<u8>, stride: int, r: int) -> Seq<u8> {
    pixels.subrange(r * stride, (r + 1) * stride)
}

/// The row that stands above row `j` of a block of rows: `above` for the
/// first row, else the row before it.
pub open spec fn block_row_above(above: Seq<u8>, rows: Seq<u8>, stride: int, j: int) -> Seq<u8> {
    if j <= 0 {
        above
    } else {
        row_at(rows, stride, j - 1)
    }
}

/// The first `count` rows of a block as they enter the compressor: each
/// row filtered against the row above it and led by its filter-type byte.
pub open spec fn filtered_block(
    mode: Mode<Filter>,
    bpp: int,
    stride: int,
    above: Seq<u8>,
    rows: Seq<u8>,
    count: nat,
) -> Seq<u8>
    decreases count,
{
    if count == 0 {
        Seq::<u8>::empty()
    } else {
        let j = (count - 1) as nat;
        filtered_block(mode, bpp, stride, above, rows, j) + encoded_row(
            mode,
            bpp,
            block_row_above(above, rows, stride, j as int),
            row_at(rows, stride, j as int),
        )
    }
}

/// Everything that is fixed once header and options are known.
#[derive(Clone, Copy, Debug)]
pub struct Plan {
    /// How each row picks its filter.
    pub filter_mode: Mode<Filter>,
    /// The filter distance in bytes.
    pub bpp: usize,
    /// Bytes in a row.
    pub stride: usize,
    /// Rows in the image.
    pub height: u32,
    /// Rows in every group but, maybe, the last.
    pub group_rows: usize,
    pub level: CompressionLevel,
    pub strategy: Strategy,
    /// The target size of a group and, when streaming, of a data chunk.
    pub chunk_size: usize,
    pub streaming: bool,
}

/// Rows in a group: as many as fit the target size, and at least one.
pub open spec fn rows_per_group(chunk_size: int, stride: int) -> int {
    if chunk_size / stride >= 1 {
        chunk_size / stride
    } else {
        1
    }
}

/// What is wrong with a header or with settings for which there is no
/// plan.
pub open spec fn plan_fault(header: Header, settings: Settings) -> &'static str {
    if !header.valid() {
        "Invalid image header"
    } else if !settings.valid() {
        "Invalid options"
    } else {
        "Image rows are too long for this machine"
    }
}

/// The plan that follows from a header and settings.
#[verifier::opaque]
pub open spec fn plan_for(header: Header, settings: Settings) -> Plan {
    Plan {
        filter_mode: settings.filter_mode,
        bpp: header.bytes_per_pixel() as usize,
        stride: header.bytes_per_row() as usize,
        height: header.height,
        group_rows: rows_per_group(
            settings.chunk_size as int,
            header.bytes_per_row() as int,
        ) as usize,
        level: settings.compression_level,
        strategy: settings.strategy(),
        chunk_size: settings.chunk_size,
        streaming: settings.streaming,
    }
}

impl Plan {
    pub open spec fn wf(self) -> bool {
        &&& 1 <= self.bpp <= 8
        &&& 1 <= self.stride
        &&& 128 * self.stride <= u64::MAX
        &&& 1 <= self.height <= 0x7fff_ffff
        &&& 1 <= self.chunk_size
        &&& self.group_rows == rows_per_group(self.chunk_size as int, self.stride as int)
    }

    /// The number of row groups: the image's rows divided by the rows of a
    /// group, rounded up.
    pub open spec fn group_count(self) -> int {
        (self.height + self.group_rows - 1) / (self.group_rows as int)
    }

    /// The first row of group `g`; for the number of groups, the number of
    /// rows.
    pub open spec fn group_start(self, g: int) -> int {
        if g * self.group_rows <= self.height {
            g * self.group_rows
        } else {
            self.height as int
        }
    }

    /// The row above row `r` of the image: nothing but zeros above the
    /// first.
    pub open spec fn row_above(self, pixels: Seq<u8>, r: int) -> Seq<u8> {
        if r <= 0 {
            zero_row(self.stride as nat)
        } else {
            row_at(pixels, self.stride as int, r - 1)
        }
    }

    /// Rows `lo` to `hi - 1` of the image as they enter the compressor.
    #[verifier::opaque]
    pub open spec fn filtered_rows(self, pixels: Seq<u8>, lo: int, hi: int) -> Seq<u8> {
        filtered_block(
            self.filter_mode,
            self.bpp as int,
            self.stride as int,
            self.row_above(pixels, lo),
            pixels.subrange(lo * self.stride, hi * self.stride),
            if hi >= lo {
                (hi - lo) as nat
            } else {
                0
            },
        )
    }

    /// The rows of group `g` as they enter the compressor.
    pub open spec fn group_filtered(self, pixels: Seq<u8>, g: int) -> Seq<u8> {
        self.filtered_rows(pixels, self.group_start(g), self.group_start(g + 1))
    }

    /// What the compressor makes of group `g`: its deflate blocks, or
    /// `None` if it gives up.
    pub open spec fn group_deflated(self, pixels: Seq<u8>, g: int) -> Option<Seq<u8>> {
        deflate_blocks(self.group_filtered(pixels, g), self.level.number(), self.strategy.code())
    }

    /// The deflate blocks of group `g`; none where the compressor gives
    /// up.
    pub open spec fn group_blocks(self, pixels: Seq<u8>, g: int) -> Seq<u8> {
        match self.group_deflated(pixels, g) {
            Some(blocks) => blocks,
            None => Seq::<u8>::empty(),
        }
    }

    /// Whether the compressor copes with every group from `from` to
    /// `to - 1`.
    #[verifier::opaque]
    pub open spec fn all_deflated(self, pixels: Seq<u8>, from: int, to: int) -> bool {
        forall|g: int| from <= g < to ==> (#[trigger] self.group_deflated(pixels, g)) is Some
    }

    /// The compressor copes with every group of a run that holds none.
    pub proof fn lemma_all_deflated_empty(self, pixels: Seq<u8>, from: int, to: int)
        requires
            to <= from,
        ensures
            self.all_deflated(pixels, from, to),
    {
        reveal(Plan::all_deflated);
    }

    /// If the compressor copes with every group of two runs that follow
    /// one another, it copes with every group of both.
    pub proof fn lemma_all_deflated_joins(self, pixels: Seq<u8>, from: int, mid: int, to: int)
        requires
            self.all_deflated(pixels, from, mid),
            self.all_deflated(pixels, mid, to),
        ensures
            self.all_deflated(pixels, from, to),
    {
        reveal(Plan::all_deflated);
    }

    /// The compressor copes with every group of a run of one group if it
    /// copes with that group.
    pub proof fn lemma_all_deflated_one(self, pixels: Seq<u8>, g: int)
        ensures
            self.all_deflated(pixels, g, g + 1) == (self.group_deflated(pixels, g) is Some),
    {
        reveal(Plan::all_deflated);
    }

    /// If the compressor gives up on a group, it does not cope with every
    /// group of a run that holds that group.
    pub proof fn lemma_all_deflated_fails(self, pixels: Seq<u8>, from: int, g: int, to: int)
        requires
            from <= g < to,
            self.group_deflated(pixels, g) is None,
        ensures
            !self.all_deflated(pixels, from, to),
    {
        reveal(Plan::all_deflated);
    }

    /// If the compressor does not cope with every group of a run, it does
    /// not with every group of a run that holds that run.
    pub proof fn lemma_all_deflated_within(
        self,
        pixels: Seq<u8>,
        from: int,
        to: int,
        wider_from: int,
        wider_to: int,
    )
        requires
            wider_from <= from,
            to <= wider_to,
            !self.all_deflated(pixels, from, to),
        ensures
            !self.all_deflated(pixels, wider_from, wider_to),
    {
        reveal(Plan::all_deflated);
    }

    /// The plan for `header` and `settings`. Fails if either is not valid,
    /// or if a row has more bytes than this machine can address.
    pub fn new(header: &Header, settings: &Settings) -> (r: Result<Plan, Error>)
        ensures
            header.valid() && settings.valid() && header.bytes_per_row() <= usize::MAX ==> r is Ok
                && r->Ok_0 == plan_for(*header, *settings) && r->Ok_0.wf() && r->Ok_0.height
                == header.height && r->Ok_0.stride == header.bytes_per_row(),
            !(header.valid() && settings.valid() && header.bytes_per_row() <= usize::MAX) ==> r
                is Err
                && r->Err_0.has(ErrorKind::InvalidInput, plan_fault(*header, *settings)),
    {
        proof {
            reveal(plan_for);
        }
        if !header.is_valid() {
            return Err(invalid_input("Invalid image header"));
        }
        if !settings.is_valid() {
            return Err(invalid_input("Invalid options"));
        }
        let wide: u64 = header.stride();
        if wide > usize::MAX as u64 {
            return Err(invalid_input("Image rows are too long for this machine"));
        }
        let stride: usize = wide as usize;
        let fit: usize = settings.chunk_size / stride;
        let group_rows: usize = if fit >= 1 {
            fit
        } else {
            1
        };
        Ok(
            Plan {
                filter_mode: settings.filter_mode,
                bpp: header.bpp(),
                stride,
                height: header.height,
                group_rows,
                level: settings.compression_level,
                strategy: settings.effective_strategy(),
                chunk_size: settings.chunk_size,
                streaming: settings.streaming,
            },
        )
    }

    /// The number of row groups.
    pub fn groups(&self) -> (n: u32)
        requires
            self.wf(),
        ensures
            n == self.group_count(),
            n >= 1,
    {
        proof {
            self.lemma_group_count_capped();
        }
        if self.group_rows as u64 >= self.height as u64 {
            1
        } else {
            let h: u64 = self.height as u64;
            let per: u64 = self.group_rows as u64;
            ((h + per - 1) / per) as u32
        }
    }

    /// The first row of group `g`, or the number of rows when `g` is the
    /// number of groups or more.
    pub fn first_row(&self, g: u32) -> (r: u32)
        requires
            self.wf(),
        ensures
            r == self.group_start(g as int),
            r <= self.height,
    {
        let h: u64 = self.height as u64;
        if self.group_rows as u64 > h {
            proof {
                lemma_mul_next(0, self.group_rows as int);
                if g >= 1 {
                    lemma_mul_ordered(1, g as int, self.group_rows as int);
                }
            }
            if g == 0 {
                0
            } else {
                self.height
            }
        } else {
            let per: u64 = self.group_rows as u64;
            assert((g as u64) * per <= 0xffff_ffff * 0x7fff_ffff) by (nonlinear_arith)
                requires
                    g <= 0xffff_ffff,
                    per <= 0x7fff_ffff,
            ;
            let at: u64 = (g as u64) * per;
            if at <= h {
                at as u32
            } else {
                self.height
            }
        }
    }

    /// There is at least one group and at most one for each row; a group
    /// size that covers the image gives one group.
    pub proof fn lemma_group_count_capped(self)
        requires
            self.wf(),
        ensures
            self.group_rows >= self.height ==> self.group_count() == 1,
            self.group_count() >= 1,
            self.group_count() <= self.height,
    {
        let h = self.height as int;
        let n = self.group_rows as int;
        if n >= h {
            assert((h + n - 1) / n == 1) by (nonlinear_arith)
                requires
                    1 <= h <= n,
            ;
        } else {
            assert(1 <= (h + n - 1) / n <= h) by (nonlinear_arith)
                requires
                    1 <= n <= h,
            ;
        }
    }

    /// The groups tile the image: the first begins at row 0, each begins
    /// where the one before ends and holds at least one row and at most
    /// the rows of a group, each but the last holds exactly that many, and
    /// the last ends with the image.
    pub proof fn lemma_groups_tile(self, g: int)
        requires
            self.wf(),
            0 <= g < self.group_count(),
        ensures
            self.group_start(0) == 0,
            self.group_start(self.group_count()) == self.height,
            self.group_start(g) < self.group_start(g + 1) <= self.height,
            self.group_start(g + 1) - self.group_start(g) <= self.group_rows,
            g + 1 < self.group_count() ==> self.group_start(g + 1) - self.group_start(g)
                == self.group_rows,
            self.group_start(g) == g * self.group_rows,
    {
        let h = self.height as int;
        let n = self.group_rows as int;
        let c = self.group_count();
        assert(c == (h + n - 1) / n);
        assert(h <= c * n < h + n && (c - 1) * n < h) by (nonlinear_arith)
            requires
                c == (h + n - 1) / n,
                n >= 1,
                h >= 1,
        ;
        assert(g * n <= (c - 1) * n) by (nonlinear_arith)
            requires
                g <= c - 1,
                n >= 1,
        ;
        assert((g + 1) * n == g * n + n) by (nonlinear_arith);
        assert(0 * n == 0);
        if g + 1 < c {
            assert((g + 1) * n <= (c - 1) * n) by (nonlinear_arith)
                requires
                    g + 1 <= c - 1,
                    n >= 1,
            ;
        }
    }
}

/// Multiplying by the next number adds the factor once more.
pub proof fn lemma_mul_next(j: int, stride: int)
    ensures
        (j + 1) * stride == j * stride + stride,
        0 * stride == 0,
{
    assert((j + 1) * stride == j * stride + stride) by (nonlinear_arith);
}

/// Multiplying by a factor that is not negative keeps the order.
pub proof fn lemma_mul_ordered(j: int, k: int, stride: int)
    requires
        0 <= j <= k,
        0 <= stride,
    ensures
        0 <= j * stride <= k * stride,
{
    assert(0 <= j * stride <= k * stride) by (nonlinear_arith)
        requires
            0 <= j <= k,
            0 <= stride,
    ;
}

/// The filtered block has one byte more than the row for every row.
pub proof fn lemma_filtered_block_len(
    mode: Mode<Filter>,
    bpp: int,
    stride: int,
    above: Seq<u8>,
    rows: Seq<u8>,
    count: nat,
)
    requires
        stride >= 0,
        rows.len() >= count * stride,
    ensures
        filtered_block(mode, bpp, stride, above, rows, count).len() == count * (stride + 1),
    decreases count,
{
    if count == 0 {
        lemma_mul_next(0, stride + 1);
    } else {
        let j = (count - 1) as nat;
        lemma_mul_next(j as int, stride);
        lemma_mul_next(j as int, stride + 1);
        lemma_mul_ordered(j as int, j as int, stride);
        lemma_filtered_block_len(mode, bpp, stride, above, rows, j);
        let row = row_at(rows, stride, j as int);
        assert(row.len() == stride);
        let prev = block_row_above(above, rows, stride, j as int);
        assert(encoded_row(mode, bpp, prev, row).len() == stride + 1);
    }
}

/// A filtered block reads only the rows that it counts.
pub proof fn lemma_filtered_block_reads_prefix(
    mode: Mode<Filter>,
    bpp: int,
    stride: int,
    above: Seq<u8>,
    rows: Seq<u8>,
    other: Seq<u8>,
    count: nat,
)
    requires
        stride >= 0,
        rows.len() >= count * stride,
        other.len() >= count * stride,
        rows.take(count * stride) == other.take(count * stride),
    ensures
        filtered_block(mode, bpp, stride, above, rows, count) == filtered_block(
            mode,
            bpp,
            stride,
            above,
            other,
            count,
        ),
    decreases count,
{
    if count > 0 {
        let j = (count - 1) as nat;
        assert(j * stride + stride == count * stride) by (nonlinear_arith)
            requires
                j + 1 == count,
        ;
        assert(j * stride >= 0) by (nonlinear_arith)
            requires
                j >= 0,
                stride >= 0,
        ;
        let full = (count * stride) as int;
        assert(rows.take(j * stride) =~= rows.take(full).take(j * stride));
        assert(other.take(j * stride) =~= other.take(full).take(j * stride));
        lemma_filtered_block_reads_prefix(mode, bpp, stride, above, rows, other, j);
        assert(row_at(rows, stride, j as int) =~= rows.take(full).subrange(j * stride, full));
        assert(row_at(other, stride, j as int) =~= other.take(full).subrange(j * stride, full));
        if j > 0 {
            let i = (j - 1) as nat;
            assert(i * stride + stride == j * stride) by (nonlinear_arith)
                requires
                    i + 1 == j,
            ;
            assert(i * stride >= 0) by (nonlinear_arith)
                requires
                    i >= 0,
                    stride >= 0,
            ;
            assert(row_at(rows, stride, i as int) =~= rows.take(full).subrange(
                i * stride,
                j * stride,
            ));
            assert(row_at(other, stride, i as int) =~= other.take(full).subrange(
                i * stride,
                j * stride,
            ));
        }
    }
}

proof fn lemma_filtered_block_split_upto(
    mode: Mode<Filter>,
    bpp: int,
    stride: int,
    above: Seq<u8>,
    rows: Seq<u8>,
    j: nat,
    m: nat,
    k: nat,
)
    requires
        stride >= 0,
        j <= m <= k,
        rows.len() >= k * stride,
    ensures
        filtered_block(mode, bpp, stride, above, rows, m) == filtered_block(
            mode,
            bpp,
            stride,
            above,
            rows,
            j,
        ) + filtered_block(
            mode,
            bpp,
            stride,
            block_row_above(above, rows, stride, j as int),
            rows.subrange(j * stride, k * stride),
            (m - j) as nat,
        ),
    decreases m,
{
    let head = filtered_block(mode, bpp, stride, above, rows, j);
    let first = block_row_above(above, rows, stride, j as int);
    let rest = rows.subrange(j * stride, k * stride);
    lemma_mul_ordered(j as int, k as int, stride);
    if m == j {
        assert(head + Seq::<u8>::empty() =~= head);
    } else {
        let i = (m - 1) as nat;
        lemma_filtered_block_split_upto(mode, bpp, stride, above, rows, j, i, k);
        // Row i of the block is row i - j of the rest.
        let d = (i - j) as int;
        lemma_mul_next(i as int, stride);
        lemma_mul_next(d, stride);
        lemma_mul_ordered(i as int + 1, k as int, stride);
        lemma_mul_ordered(j as int, i as int, stride);
        lemma_mul_ordered(0, d, stride);
        assert(i * stride == j * stride + d * stride) by (nonlinear_arith)
            requires
                d == i - j,
        ;
        assert(row_at(rest, stride, d) =~= row_at(rows, stride, i as int));
        if d > 0 {
            lemma_mul_next(d - 1, stride);
            lemma_mul_next(i as int - 1, stride);
            lemma_mul_ordered(0, d - 1, stride);
            assert(row_at(rest, stride, d - 1) =~= row_at(rows, stride, i as int - 1));
        }
        assert(block_row_above(first, rest, stride, d) == block_row_above(
            above,
            rows,
            stride,
            i as int,
        ));
        let row = encoded_row(
            mode,
            bpp,
            block_row_above(above, rows, stride, i as int),
            row_at(rows, stride, i as int),
        );
        let tail = filtered_block(mode, bpp, stride, first, rest, d as nat);
        assert((head + tail) + row =~= head + (tail + row));
    }
}

/// A block of `k` rows is its first `j` rows, then the rest filtered as a
/// block of its own that has row `j - 1` above it.
pub proof fn lemma_filtered_block_split(
    mode: Mode<Filter>,
    bpp: int,
    stride: int,
    above: Seq<u8>,
    rows: Seq<u8>,
    j: nat,
    k: nat,
)
    requires
        stride >= 0,
        j <= k,
        rows.len() >= k * stride,
    ensures
        filtered_block(mode, bpp, stride, above, rows, k) == filtered_block(
            mode,
            bpp,
            stride,
            above,
            rows,
            j,
        ) + filtered_block(
            mode,
            bpp,
            stride,
            block_row_above(above, rows, stride, j as int),
            rows.subrange(j * stride, k * stride),
            (k - j) as nat,
        ),
{
    lemma_filtered_block_split_upto(mode, bpp, stride, above, rows, j, k, k);
}

impl Plan {
    /// The filtered rows of a range are those of its lower part, then
    /// those of its upper part.
    pub proof fn lemma_filtered_rows_split(self, pixels: Seq<u8>, lo: int, mid: int, hi: int)
        requires
            self.wf(),
            0 <= lo <= mid <= hi,
            hi * self.stride <= pixels.len(),
        ensures
            self.filtered_rows(pixels, lo, hi) == self.filtered_rows(pixels, lo, mid)
                + self.filtered_rows(pixels, mid, hi),
    {
        reveal(Plan::filtered_rows);
        let s = self.stride as int;
        let above = self.row_above(pixels, lo);
        let block = pixels.subrange(lo * s, hi * s);
        let j = (mid - lo) as nat;
        let k = (hi - lo) as nat;
        lemma_mul_ordered(lo, mid, s);
        lemma_mul_ordered(mid, hi, s);
        lemma_mul_ordered(0, j as int, s);
        lemma_mul_ordered(j as int, k as int, s);
        assert(mid * s == lo * s + j * s) by (nonlinear_arith)
            requires
                j == mid - lo,
        ;
        assert(hi * s == lo * s + k * s) by (nonlinear_arith)
            requires
                k == hi - lo,
        ;
        lemma_filtered_block_split(self.filter_mode, self.bpp as int, s, above, block, j, k);
        let lower = pixels.subrange(lo * s, mid * s);
        assert(block.take(j * s) =~= lower.take(j * s));
        lemma_filtered_block_reads_prefix(
            self.filter_mode,
            self.bpp as int,
            s,
            above,
            block,
            lower,
            j,
        );
        assert(block.subrange(j * s, k * s) =~= pixels.subrange(mid * s, hi * s));
        if j > 0 {
            lemma_mul_next(j as int - 1, s);
            lemma_mul_next(mid - 1, s);
            lemma_mul_ordered(0, j as int - 1, s);
            assert(row_at(block, s, j as int - 1) =~= row_at(pixels, s, mid - 1));
        }
        assert(block_row_above(above, block, s, j as int) == self.row_above(pixels, mid));
    }

    /// What the rows of a range become does not depend on what follows
    /// them in memory.
    pub proof fn lemma_filtered_rows_stable(self, pixels: Seq<u8>, extra: Seq<u8>, lo: int, hi: int)
        requires
            self.wf(),
            0 <= lo <= hi,
            hi * self.stride <= pixels.len(),
        ensures
            self.filtered_rows(pixels + extra, lo, hi) == self.filtered_rows(pixels, lo, hi),
    {
        reveal(Plan::filtered_rows);
        let s = self.stride as int;
        lemma_mul_ordered(lo, hi, s);
        assert((pixels + extra).subrange(lo * s, hi * s) =~= pixels.subrange(lo * s, hi * s));
        if lo > 0 {
            lemma_mul_next(lo - 1, s);
            lemma_mul_ordered(0, lo - 1, s);
            assert(row_at(pixels + extra, s, lo - 1) =~= row_at(pixels, s, lo - 1));
        }
    }
}

/// The first `count` rows of `rows`, each filtered against the row above
/// it and led by its filter-type byte; `above` stands above the first.
pub fn filter_block(plan: &Plan, above: &[u8], rows: &[u8], count: usize) -> (out: Vec<u8>)
    requires
        plan.wf(),
        above@.len() == plan.stride,
        rows@.len() == count * plan.stride,
    ensures
        out@ == filtered_block(
            plan.filter_mode,
            plan.bpp as int,
            plan.stride as int,
            above@,
            rows@,
            count as nat,
        ),
{
    let stride: usize = plan.stride;
    let total: usize = rows.len();
    let mut out: Vec<u8> = Vec::new();
    let mut j: usize = 0;
    let mut start: usize = 0;
    proof {
        lemma_mul_next(0, stride as int);
    }
    while j < count
        invariant
            plan.wf(),
            total == rows@.len(),
            stride == plan.stride,
            above@.len() == stride,
            rows@.len() == count * stride,
            j <= count,
            start == j * stride,
            out@ == filtered_block(
                plan.filter_mode,
                plan.bpp as int,
                stride as int,
                above@,
                rows@,
                j as nat,
            ),
        decreases count - j,
    {
        proof {
            lemma_mul_next(j as int, stride as int);
            lemma_mul_ordered(j as int + 1, count as int, stride as int);
        }
        let end: usize = start + stride;
        let row: &[u8] = slice_subrange(rows, start, end);
        assert(row@ == row_at(rows@, stride as int, j as int));
        let ghost before = out@;
        if j == 0 {
            encode_row(plan.filter_mode, plan.bpp, above, row, &mut out);
            assert(above@ == block_row_above(above@, rows@, stride as int, j as int));
        } else {
            proof {
                lemma_mul_next(j as int - 1, stride as int);
                lemma_mul_ordered(j as int - 1, j as int, stride as int);
            }
            let prev: &[u8] = slice_subrange(rows, start - stride, start);
            assert(prev@ == block_row_above(above@, rows@, stride as int, j as int));
            encode_row(plan.filter_mode, plan.bpp, prev, row, &mut out);
        }
        assert(out@ == before + encoded_row(
            plan.filter_mode,
            plan.bpp as int,
            block_row_above(above@, rows@, stride as int, j as int),
            row_at(rows@, stride as int, j as int),
        ));
        j += 1;
        start = end;
    }
    out
}

} // verus!
