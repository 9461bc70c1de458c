use mtpng::filter::{apply_filter, choose_filter, complexity, encode_row, filter_row, paeth};
use mtpng::{Filter, Mode};

const ROW: [u8; 6] = [10, 20, 30, 11, 22, 33];
const PREV: [u8; 6] = [1, 2, 3, 4, 5, 6];

fn filtered(f: Filter, bpp: usize, prev: &[u8], row: &[u8]) -> Vec<u8> {
    let mut out = Vec::new();
    filter_row(f, bpp, prev, row, &mut out);
    out
}

#[test]
fn no_filter_copies_the_row() {
    assert_eq!(filtered(Filter::NoFilter, 3, &PREV, &ROW), ROW.to_vec());
}

#[test]
fn sub_takes_the_byte_one_pixel_back() {
    assert_eq!(filtered(Filter::Sub, 3, &PREV, &ROW), vec![10, 20, 30, 1, 2, 3]);
}

#[test]
fn up_takes_the_byte_above() {
    assert_eq!(filtered(Filter::Up, 3, &PREV, &ROW), vec![9, 18, 27, 7, 17, 27]);
}

#[test]
fn average_takes_the_floor_of_the_mean() {
    assert_eq!(filtered(Filter::Average, 3, &PREV, &ROW), vec![10, 19, 29, 4, 10, 15]);
}

#[test]
fn paeth_takes_the_nearest_neighbour() {
    assert_eq!(filtered(Filter::Paeth, 3, &PREV, &ROW), vec![9, 18, 27, 1, 2, 3]);
}

#[test]
fn differences_wrap_modulo_256() {
    assert_eq!(apply_filter(Filter::Sub, 5, 10, 0, 0), 251);
    assert_eq!(apply_filter(Filter::Up, 0, 0, 255, 0), 1);
    assert_eq!(apply_filter(Filter::Average, 0, 255, 255, 0), 1);
}

#[test]
fn average_does_not_overflow() {
    assert_eq!(apply_filter(Filter::Average, 255, 255, 255, 0), 0);
    assert_eq!(apply_filter(Filter::Average, 200, 255, 254, 0), 202);
}

#[test]
fn paeth_predictor_picks_by_distance_and_rank() {
    assert_eq!(paeth(0, 0, 0), 0);
    assert_eq!(paeth(10, 4, 1), 10);
    assert_eq!(paeth(0, 4, 2), 2);
    assert_eq!(paeth(3, 200, 3), 200);
    assert_eq!(paeth(255, 255, 0), 255);
    assert_eq!(paeth(7, 7, 7), 7);
}

#[test]
fn first_row_filters_against_zeros() {
    let zeros = [0u8; 6];
    assert_eq!(filtered(Filter::Up, 3, &zeros, &ROW), ROW.to_vec());
    assert_eq!(filtered(Filter::Paeth, 3, &zeros, &ROW), filtered(Filter::Sub, 3, &zeros, &ROW));
}

#[test]
fn filter_appends_to_the_output() {
    let mut out = vec![42u8];
    filter_row(Filter::Sub, 1, &[0, 0], &[3, 5], &mut out);
    assert_eq!(out, vec![42, 3, 2]);
}

#[test]
fn complexity_sums_distances_from_zero() {
    assert_eq!(complexity(&[0, 1, 127, 128, 255]), 257);
    assert_eq!(complexity(&[]), 0);
}

#[test]
fn adaptive_picks_the_cheapest_filter() {
    let (f, row) = choose_filter(1, &[0, 0, 0, 0], &[5, 5, 5, 5]);
    assert_eq!(f, Filter::Sub);
    assert_eq!(row, vec![5, 0, 0, 0]);
    let (f, row) = choose_filter(1, &[5, 6, 7, 8], &[5, 6, 7, 8]);
    assert_eq!(f, Filter::Up);
    assert_eq!(row, vec![0, 0, 0, 0]);
}

#[test]
fn adaptive_prefers_the_earlier_filter_on_a_tie() {
    let (f, _) = choose_filter(2, &[0, 0, 0], &[0, 0, 0]);
    assert_eq!(f, Filter::NoFilter);
    // Sub and Paeth both cost 5 here; Sub comes first.
    let (f, _) = choose_filter(1, &[0, 0], &[5, 5]);
    assert_eq!(f, Filter::Sub);
}

#[test]
fn encoded_row_opens_with_the_filter_type() {
    let mut out = Vec::new();
    encode_row(Mode::Fixed(Filter::Average), 3, &PREV, &ROW, &mut out);
    assert_eq!(out, vec![3, 10, 19, 29, 4, 10, 15]);
    let mut out = Vec::new();
    encode_row(Mode::Adaptive, 1, &[0, 0, 0, 0], &[5, 5, 5, 5], &mut out);
    assert_eq!(out, vec![1, 5, 0, 0, 0]);
}

fn unfilter(f: Filter, bpp: usize, prev: &[u8], filtered: &[u8]) -> Vec<u8> {
    let mut row: Vec<u8> = Vec::new();
    for i in 0..filtered.len() {
        let a = if i >= bpp { row[i - bpp] as i32 } else { 0 };
        let b = prev[i] as i32;
        let c = if i >= bpp { prev[i - bpp] as i32 } else { 0 };
        let predicted = match f {
            Filter::NoFilter => 0,
            Filter::Sub => a,
            Filter::Up => b,
            Filter::Average => (a + b) / 2,
            Filter::Paeth => paeth(a as u8, b as u8, c as u8) as i32,
        };
        row.push(((filtered[i] as i32 + predicted) & 0xff) as u8);
    }
    row
}

#[test]
fn every_filter_can_be_undone() {
    let row: Vec<u8> = (0..64u32).map(|i| (i * 37 % 251) as u8).collect();
    let prev: Vec<u8> = (0..64u32).map(|i| (i * 91 % 253) as u8).collect();
    for f in [Filter::NoFilter, Filter::Sub, Filter::Up, Filter::Average, Filter::Paeth] {
        for bpp in [1usize, 2, 3, 4, 6, 8] {
            let out = filtered(f, bpp, &prev, &row);
            assert_eq!(unfilter(f, bpp, &prev, &out), row);
        }
    }
}
