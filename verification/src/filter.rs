//! The five row filters of PNG, and the choice among them.

use vstd::prelude::*;
use crate::options::{Filter, Mode};

verus! {

/// The distance between two integers.
pub open spec fn distance(x: int, y: int) -> int {
    if x >= y {
        x - y
    } else {
        y - x
    }
}

/// Of the bytes to the left (`a`), above (`b`) and above-left (`c`), the
/// one nearest to `a + b - c`; on a tie `a` goes before `b` before `c`.
pub open spec fn paeth_predictor(a: int, b: int, c: int) -> int {
    let p = a + b - c;
    let pa = distance(p, a);
    let pb = distance(p, b);
    let pc = distance(p, c);
    if pa <= pb && pa <= pc {
        a
    } else if pb <= pc {
        b
    } else {
        c
    }
}

/// What filter `f` expects a byte to be, given its three neighbours.
pub open spec fn predictor(f: Filter, a: int, b: int, c: int) -> int {
    match f {
        Filter::NoFilter => 0,
        Filter::Sub => a,
        Filter::Up => b,
        Filter::Average => (a + b) / 2,
        Filter::Paeth => paeth_predictor(a, b, c),
    }
}

/// A byte after filtering: its difference from the prediction, modulo 256.
pub open spec fn filter_byte(f: Filter, x: u8, a: u8, b: u8, c: u8) -> u8 {
    ((x - predictor(f, a as int, b as int, c as int)) % 256) as u8
}

/// A byte restored from its filtered value: the sum with the prediction,
/// modulo 256.
pub open spec fn unfilter_byte(f: Filter, y: u8, a: u8, b: u8, c: u8) -> u8 {
    ((y + predictor(f, a as int, b as int, c as int)) % 256) as u8
}

/// The byte `bpp` places before place `i` of `row`, or 0 where the row
/// does not reach that far back.
pub open spec fn byte_before(row: Seq<u8>, bpp: int, i: int) -> u8 {
    if i >= bpp {
        row[i - bpp]
    } else {
        0
    }
}

/// A row of all zeros, which stands above the first row of an image.
pub open spec fn zero_row(len: nat) -> Seq<u8> {
    Seq::new(len, |i: int| 0u8)
}

/// `row` filtered with `f`, where `prev` is the row above it.
pub open spec fn filtered_row(f: Filter, bpp: int, prev: Seq<u8>, row: Seq<u8>) -> Seq<u8> {
    Seq::new(
        row.len(),
        |i: int|
            filter_byte(f, row[i], byte_before(row, bpp, i), prev[i], byte_before(prev, bpp, i)),
    )
}

/// The first `n` bytes of the row that `filtered` restores to under `f`.
pub open spec fn unfiltered_prefix(
    f: Filter,
    bpp: int,
    prev: Seq<u8>,
    filtered: Seq<u8>,
    n: nat,
) -> Seq<u8>
    decreases n,
{
    if n == 0 {
        Seq::<u8>::empty()
    } else {
        let before = unfiltered_prefix(f, bpp, prev, filtered, (n - 1) as nat);
        before.push(
            unfilter_byte(
                f,
                filtered[n - 1],
                byte_before(before, bpp, n - 1),
                prev[n - 1],
                byte_before(prev, bpp, n - 1),
            ),
        )
    }
}

/// The row that `filtered` restores to under `f`, where `prev` is the
/// restored row above it.
pub open spec fn unfiltered_row(f: Filter, bpp: int, prev: Seq<u8>, filtered: Seq<u8>) -> Seq<u8> {
    unfiltered_prefix(f, bpp, prev, filtered, filtered.len())
}

/// How far a filtered byte, read as a signed number, lies from zero.
pub open spec fn byte_cost(v: u8) -> nat {
    if v < 128 {
        v as nat
    } else {
        (256 - v) as nat
    }
}

/// The sum of the costs of the bytes: the smaller, the better the bytes
/// are expected to compress.
pub open spec fn row_cost(bytes: Seq<u8>) -> nat
    decreases bytes.len(),
{
    if bytes.len() == 0 {
        0
    } else {
        row_cost(bytes.drop_last()) + byte_cost(bytes.last())
    }
}

/// The cost of `row` filtered with `f`.
pub open spec fn filter_cost(f: Filter, bpp: int, prev: Seq<u8>, row: Seq<u8>) -> nat {
    row_cost(filtered_row(f, bpp, prev, row))
}

/// Whether `f` is to be preferred to `g` for this row: it costs less, or
/// the same and comes no later in the order of filter types.
pub open spec fn preferred(f: Filter, g: Filter, bpp: int, prev: Seq<u8>, row: Seq<u8>) -> bool {
    let cf = filter_cost(f, bpp, prev, row);
    let cg = filter_cost(g, bpp, prev, row);
    cf < cg || (cf == cg && f.code() <= g.code())
}

/// Of two filters the later one only if it costs strictly less.
pub open spec fn pick(f: Filter, g: Filter, bpp: int, prev: Seq<u8>, row: Seq<u8>) -> Filter {
    if filter_cost(g, bpp, prev, row) < filter_cost(f, bpp, prev, row) {
        g
    } else {
        f
    }
}

/// The filter of least cost for this row, the earliest of them on a tie.
pub open spec fn best_filter(bpp: int, prev: Seq<u8>, row: Seq<u8>) -> Filter {
    let f1 = pick(Filter::NoFilter, Filter::Sub, bpp, prev, row);
    let f2 = pick(f1, Filter::Up, bpp, prev, row);
    let f3 = pick(f2, Filter::Average, bpp, prev, row);
    pick(f3, Filter::Paeth, bpp, prev, row)
}

/// The filter that `mode` applies to this row.
pub open spec fn chosen_filter(
    mode: Mode<Filter>,
    bpp: int,
    prev: Seq<u8>,
    row: Seq<u8>,
) -> Filter {
    match mode {
        Mode::Fixed(f) => f,
        Mode::Adaptive => best_filter(bpp, prev, row),
    }
}

/// A row as it enters the compressor: the filter-type byte, then the
/// filtered bytes.
pub open spec fn encoded_row(mode: Mode<Filter>, bpp: int, prev: Seq<u8>, row: Seq<u8>) -> Seq<u8> {
    let f = chosen_filter(mode, bpp, prev, row);
    seq![f.code()] + filtered_row(f, bpp, prev, row)
}

/// The adaptive choice is preferred to every filter.
pub proof fn lemma_best_filter_is_preferred(bpp: int, prev: Seq<u8>, row: Seq<u8>, g: Filter)
    ensures
        preferred(best_filter(bpp, prev, row), g, bpp, prev, row),
{
}

/// Restoring a filtered byte gives the byte that was filtered.
pub proof fn lemma_unfilter_byte(f: Filter, x: u8, a: u8, b: u8, c: u8)
    ensures
        unfilter_byte(f, filter_byte(f, x, a, b, c), a, b, c) == x,
{
    let p = predictor(f, a as int, b as int, c as int);
    assert(0 <= p < 256);
    let y = (x - p) % 256;
    assert((y + p) % 256 == x) by {
        if x - p >= 0 {
            assert(y == x - p);
        } else {
            assert(y == x - p + 256);
        }
    }
}

/// Restoring a filtered row gives the row that was filtered, under every
/// filter and whatever stands above.
pub proof fn lemma_filter_round_trip(f: Filter, bpp: int, prev: Seq<u8>, row: Seq<u8>)
    requires
        bpp >= 1,
        prev.len() == row.len(),
    ensures
        unfiltered_row(f, bpp, prev, filtered_row(f, bpp, prev, row)) == row,
{
    let filtered = filtered_row(f, bpp, prev, row);
    lemma_unfiltered_prefix(f, bpp, prev, row, row.len());
    assert(row.take(row.len() as int) =~= row);
}

proof fn lemma_unfiltered_prefix(f: Filter, bpp: int, prev: Seq<u8>, row: Seq<u8>, n: nat)
    requires
        bpp >= 1,
        prev.len() == row.len(),
        n <= row.len(),
    ensures
        unfiltered_prefix(f, bpp, prev, filtered_row(f, bpp, prev, row), n) == row.take(n as int),
    decreases n,
{
    let filtered = filtered_row(f, bpp, prev, row);
    if n == 0 {
        assert(row.take(0) =~= Seq::<u8>::empty());
    } else {
        let m = (n - 1) as nat;
        lemma_unfiltered_prefix(f, bpp, prev, row, m);
        let before = unfiltered_prefix(f, bpp, prev, filtered, m);
        assert(before == row.take(m as int));
        assert(byte_before(before, bpp, m as int) == byte_before(row, bpp, m as int));
        lemma_unfilter_byte(
            f,
            row[m as int],
            byte_before(row, bpp, m as int),
            prev[m as int],
            byte_before(prev, bpp, m as int),
        );
        assert(row.take(n as int) =~= row.take(m as int).push(row[m as int]));
    }
}

/// The filter that a filter-type byte names; a byte that names none
/// stands for no filter.
pub open spec fn filter_named(code: u8) -> Filter {
    if code == 1 {
        Filter::Sub
    } else if code == 2 {
        Filter::Up
    } else if code == 3 {
        Filter::Average
    } else if code == 4 {
        Filter::Paeth
    } else {
        Filter::NoFilter
    }
}

/// The row that a decoder restores from a row as it entered the
/// compressor: it reads the filter from the type byte and undoes it on
/// the bytes that follow, where `prev` is the restored row above.
pub open spec fn restored_row(bpp: int, prev: Seq<u8>, encoded: Seq<u8>) -> Seq<u8> {
    unfiltered_row(filter_named(encoded[0]), bpp, prev, encoded.skip(1))
}

/// Whatever the mode picks for a row, a decoder restores the row from
/// what enters the compressor.
pub proof fn lemma_encoded_row_round_trip(
    mode: Mode<Filter>,
    bpp: int,
    prev: Seq<u8>,
    row: Seq<u8>,
)
    requires
        bpp >= 1,
        prev.len() == row.len(),
    ensures
        encoded_row(mode, bpp, prev, row).len() == row.len() + 1,
        restored_row(bpp, prev, encoded_row(mode, bpp, prev, row)) == row,
{
    let f = chosen_filter(mode, bpp, prev, row);
    let encoded = encoded_row(mode, bpp, prev, row);
    assert(filter_named(f.code()) == f);
    assert(encoded[0] == f.code());
    assert(encoded.skip(1) =~= filtered_row(f, bpp, prev, row));
    lemma_filter_round_trip(f, bpp, prev, row);
}

/// The cost of a row grows by the cost of a byte put at its end.
pub proof fn lemma_row_cost_push(bytes: Seq<u8>, v: u8)
    ensures
        row_cost(bytes.push(v)) == row_cost(bytes) + byte_cost(v),
{
    assert(bytes.push(v).drop_last() =~= bytes);
}

/// The Paeth predictor of three bytes.
pub fn paeth(a: u8, b: u8, c: u8) -> (p: u8)
    ensures
        p == paeth_predictor(a as int, b as int, c as int),
{
    let ia: i32 = a as i32;
    let ib: i32 = b as i32;
    let ic: i32 = c as i32;
    let est: i32 = ia + ib - ic;
    let pa: i32 = if est >= ia {
        est - ia
    } else {
        ia - est
    };
    let pb: i32 = if est >= ib {
        est - ib
    } else {
        ib - est
    };
    let pc: i32 = if est >= ic {
        est - ic
    } else {
        ic - est
    };
    if pa <= pb && pa <= pc {
        a
    } else if pb <= pc {
        b
    } else {
        c
    }
}

/// One byte filtered with `f`, given its three neighbours.
pub fn apply_filter(f: Filter, x: u8, a: u8, b: u8, c: u8) -> (y: u8)
    ensures
        y == filter_byte(f, x, a, b, c),
{
    let predicted: u8 = match f {
        Filter::NoFilter => 0,
        Filter::Sub => a,
        Filter::Up => b,
        Filter::Average => (((a as u16) + (b as u16)) / 2) as u8,
        Filter::Paeth => paeth(a, b, c),
    };
    assert(predicted == predictor(f, a as int, b as int, c as int));
    let wide: u16 = (256 + (x as u16) - (predicted as u16)) % 256;
    wide as u8
}

/// Appends to `out` the bytes of `row` filtered with `f`; `prev` is the
/// row above, all zeros for the first row of an image.
pub fn filter_row(f: Filter, bpp: usize, prev: &[u8], row: &[u8], out: &mut Vec<u8>)
    requires
        bpp >= 1,
        prev@.len() == row@.len(),
    ensures
        final(out)@ == old(out)@ + filtered_row(f, bpp as int, prev@, row@),
{
    let n: usize = row.len();
    let ghost target = filtered_row(f, bpp as int, prev@, row@);
    let mut i: usize = 0;
    while i < n
        invariant
            i <= n,
            n == row@.len(),
            prev@.len() == row@.len(),
            bpp >= 1,
            target == filtered_row(f, bpp as int, prev@, row@),
            out@ == old(out)@ + target.take(i as int),
        decreases n - i,
    {
        let x: u8 = row[i];
        let b: u8 = prev[i];
        let (a, c): (u8, u8) = if i >= bpp {
            (row[i - bpp], prev[i - bpp])
        } else {
            (0, 0)
        };
        let y: u8 = apply_filter(f, x, a, b, c);
        out.push(y);
        assert(target.take(i as int + 1) =~= target.take(i as int).push(target[i as int]));
        assert(out@ =~= old(out)@ + target.take(i as int + 1));
        i += 1;
    }
    assert(target.take(n as int) =~= target);
}

/// The cost of `data` as filtered bytes: the sum of their distances from
/// zero when read as signed numbers.
pub fn complexity(data: &[u8]) -> (sum: u64)
    requires
        128 * data@.len() <= u64::MAX,
    ensures
        sum == row_cost(data@),
{
    let n: usize = data.len();
    let mut sum: u64 = 0;
    let mut i: usize = 0;
    while i < n
        invariant
            i <= n,
            n == data@.len(),
            128 * n <= u64::MAX,
            sum == row_cost(data@.take(i as int)),
            sum <= 128 * i,
        decreases n - i,
    {
        let v: u8 = data[i];
        let cost: u64 = if v < 128 {
            v as u64
        } else {
            256 - (v as u64)
        };
        proof {
            lemma_row_cost_push(data@.take(i as int), v);
            assert(data@.take(i as int + 1) =~= data@.take(i as int).push(v));
        }
        sum = sum + cost;
        i += 1;
    }
    assert(data@.take(n as int) =~= data@);
    sum
}

/// The filter of least cost for `row`, the earliest of them on a tie, and
/// the row filtered with it.
pub fn choose_filter(bpp: usize, prev: &[u8], row: &[u8]) -> (r: (Filter, Vec<u8>))
    requires
        bpp >= 1,
        prev@.len() == row@.len(),
        128 * row@.len() <= u64::MAX,
    ensures
        r.0 == best_filter(bpp as int, prev@, row@),
        r.1@ == filtered_row(r.0, bpp as int, prev@, row@),
{
    let mut best: Filter = Filter::NoFilter;
    let mut best_row: Vec<u8> = Vec::new();
    filter_row(best, bpp, prev, row, &mut best_row);
    let mut best_cost: u64 = complexity(best_row.as_slice());

    let mut sub_row: Vec<u8> = Vec::new();
    filter_row(Filter::Sub, bpp, prev, row, &mut sub_row);
    let sub_cost: u64 = complexity(sub_row.as_slice());
    if sub_cost < best_cost {
        best = Filter::Sub;
        best_row = sub_row;
        best_cost = sub_cost;
    }
    let mut up_row: Vec<u8> = Vec::new();
    filter_row(Filter::Up, bpp, prev, row, &mut up_row);
    let up_cost: u64 = complexity(up_row.as_slice());
    if up_cost < best_cost {
        best = Filter::Up;
        best_row = up_row;
        best_cost = up_cost;
    }
    let mut average_row: Vec<u8> = Vec::new();
    filter_row(Filter::Average, bpp, prev, row, &mut average_row);
    let average_cost: u64 = complexity(average_row.as_slice());
    if average_cost < best_cost {
        best = Filter::Average;
        best_row = average_row;
        best_cost = average_cost;
    }
    let mut paeth_row: Vec<u8> = Vec::new();
    filter_row(Filter::Paeth, bpp, prev, row, &mut paeth_row);
    let paeth_cost: u64 = complexity(paeth_row.as_slice());
    if paeth_cost < best_cost {
        best = Filter::Paeth;
        best_row = paeth_row;
    }
    (best, best_row)
}

/// Appends to `out` the filter-type byte for `row` and the filtered row.
pub fn encode_row(mode: Mode<Filter>, bpp: usize, prev: &[u8], row: &[u8], out: &mut Vec<u8>)
    requires
        bpp >= 1,
        prev@.len() == row@.len(),
        128 * row@.len() <= u64::MAX,
    ensures
        final(out)@ == old(out)@ + encoded_row(mode, bpp as int, prev@, row@),
{
    match mode {
        Mode::Fixed(f) => {
            out.push(f.to_u8());
            filter_row(f, bpp, prev, row, out);
            assert(out@ =~= old(out)@ + encoded_row(mode, bpp as int, prev@, row@));
        },
        Mode::Adaptive => {
            let (f, filtered) = choose_filter(bpp, prev, row);
            out.push(f.to_u8());
            out.extend_from_slice(filtered.as_slice());
            assert(out@ =~= old(out)@ + encoded_row(mode, bpp as int, prev@, row@));
        },
    }
}

} // verus!
