use mtpng::checksum::{adler32_combine, adler32_of};
use mtpng::group::CompressedGroup;
use mtpng::reassemble::Reassembler;
use mtpng::{CompressionLevel, ErrorKind, Writer};

fn group(index: u32, filtered: &[u8], data: &[u8]) -> CompressedGroup {
    CompressedGroup {
        index,
        filtered_len: filtered.len() as u64,
        adler: adler32_of(filtered),
        data: Some(data.to_vec()),
    }
}

fn chunk(tag: &[u8], data: &[u8]) -> Vec<u8> {
    let mut w = Writer::new(Vec::new());
    w.write_chunk(tag, data).unwrap();
    Writer::close(w).unwrap()
}

fn be(v: u32) -> Vec<u8> {
    v.to_be_bytes().to_vec()
}

#[test]
fn groups_are_joined_behind_the_zlib_header() {
    let mut r = Reassembler::new(CompressionLevel::Default, 1000, false);
    let mut w = Writer::new(Vec::new());
    r.submit(group(0, b"abc", &[1, 2, 3]), &mut w).unwrap();
    r.submit(group(1, b"de", &[4, 5]), &mut w).unwrap();
    assert_eq!(r.next_index(), 2);
    assert_eq!(r.checksum(), adler32_of(b"abcde"));
    let sum = r.finish(&mut w).unwrap();
    assert_eq!(sum, adler32_of(b"abcde"));
    let mut stream = vec![0x78, 0x9c, 1, 2, 3, 4, 5, 0x01, 0x00, 0x00, 0xff, 0xff];
    stream.extend_from_slice(&be(sum));
    let mut expected = chunk(b"IDAT", &stream);
    expected.extend_from_slice(&chunk(b"IEND", b""));
    assert_eq!(Writer::close(w).unwrap(), expected);
}

#[test]
fn zlib_header_names_the_level() {
    for (level, flag) in [
        (CompressionLevel::Fast, 0x01u8),
        (CompressionLevel::Default, 0x9c),
        (CompressionLevel::High, 0xda),
    ] {
        let r = Reassembler::new(level, 1000, false);
        let mut w = Writer::new(Vec::new());
        r.finish(&mut w).unwrap();
        let out = Writer::close(w).unwrap();
        assert_eq!(out[8..10], [0x78, flag]);
        assert_eq!((0x78u32 * 256 + flag as u32) % 31, 0);
    }
}

#[test]
fn no_group_gives_an_empty_stream() {
    let r = Reassembler::new(CompressionLevel::Fast, 1000, false);
    let mut w = Writer::new(Vec::new());
    assert_eq!(r.finish(&mut w).unwrap(), 1);
    let mut expected = chunk(b"IDAT", &[0x78, 0x01, 0x01, 0x00, 0x00, 0xff, 0xff, 0, 0, 0, 1]);
    expected.extend_from_slice(&chunk(b"IEND", b""));
    assert_eq!(Writer::close(w).unwrap(), expected);
}

#[test]
fn a_group_before_its_turn_waits() {
    let mut r = Reassembler::new(CompressionLevel::Default, 1000, false);
    let mut w = Writer::new(Vec::new());
    r.submit(group(2, b"ef", &[5, 6]), &mut w).unwrap();
    r.submit(group(1, b"cd", &[3, 4]), &mut w).unwrap();
    assert_eq!((r.next_index(), r.waiting_count(), r.checksum()), (0, 2, 1));
    r.submit(group(0, b"ab", &[1, 2]), &mut w).unwrap();
    assert_eq!((r.next_index(), r.waiting_count()), (3, 0));
    assert_eq!(r.checksum(), adler32_of(b"abcdef"));
    let sum = r.finish(&mut w).unwrap();
    let mut stream = vec![0x78, 0x9c, 1, 2, 3, 4, 5, 6, 0x01, 0x00, 0x00, 0xff, 0xff];
    stream.extend_from_slice(&be(sum));
    let mut expected = chunk(b"IDAT", &stream);
    expected.extend_from_slice(&chunk(b"IEND", b""));
    assert_eq!(Writer::close(w).unwrap(), expected);
}

#[test]
fn any_order_of_arrival_gives_the_same_stream() {
    let parts: [(&[u8], &[u8]); 4] =
        [(b"a", &[1]), (b"bc", &[2, 3]), (b"d", &[4, 5, 6]), (b"efg", &[7])];
    let run = |order: [usize; 4]| {
        let mut r = Reassembler::new(CompressionLevel::High, 3, true);
        let mut w = Writer::new(Vec::new());
        for i in order {
            r.submit(group(i as u32, parts[i].0, parts[i].1), &mut w).unwrap();
        }
        assert_eq!(r.finish(&mut w).unwrap(), adler32_of(b"abcdefg"));
        Writer::close(w).unwrap()
    };
    let in_order = run([0, 1, 2, 3]);
    for order in [[3, 2, 1, 0], [1, 0, 3, 2], [2, 0, 1, 3], [0, 3, 1, 2]] {
        assert_eq!(run(order), in_order);
    }
}

#[test]
fn a_group_that_came_already_is_refused() {
    let mut r = Reassembler::new(CompressionLevel::Default, 1000, false);
    let mut w = Writer::new(Vec::new());
    r.submit(group(1, b"x", &[9]), &mut w).unwrap();
    // the same index again, while the first still waits
    let e = r.submit(group(1, b"y", &[8]), &mut w).unwrap_err();
    assert_eq!(e.kind(), ErrorKind::Internal);
    assert_eq!((r.next_index(), r.waiting_count()), (0, 1));
    r.submit(group(0, b"w", &[7]), &mut w).unwrap();
    // an index whose turn has passed
    let e = r.submit(group(0, b"w", &[7]), &mut w).unwrap_err();
    assert_eq!(e.kind(), ErrorKind::Internal);
    assert_eq!((r.next_index(), r.waiting_count()), (2, 0));
    assert_eq!(r.checksum(), adler32_of(b"wx"));
    let e = r.submit(group(u32::MAX, b"z", &[1]), &mut w).unwrap_err();
    assert_eq!(e.kind(), ErrorKind::Internal);
}

#[test]
fn finish_with_a_group_waiting_is_refused() {
    let mut r = Reassembler::new(CompressionLevel::Default, 1000, false);
    let mut w = Writer::new(vec![5]);
    r.submit(group(1, b"x", &[9]), &mut w).unwrap();
    let e = r.finish(&mut w).unwrap_err();
    assert_eq!(e.kind(), ErrorKind::Internal);
    assert_eq!(Writer::close(w).unwrap(), vec![5]);
}

#[test]
fn a_failed_group_is_refused() {
    let mut r = Reassembler::new(CompressionLevel::Default, 1000, false);
    let mut w = Writer::new(Vec::new());
    let failed = CompressedGroup { index: 0, filtered_len: 3, adler: 7, data: None };
    let e = r.submit(failed, &mut w).unwrap_err();
    assert_eq!(e.kind(), ErrorKind::Internal);
    assert_eq!(e.message(), "A worker failed to encode its rows");
    assert_eq!((r.next_index(), r.checksum()), (0, 1));
    assert_eq!(Writer::close(w).unwrap().len(), 0);
}

#[test]
fn streaming_writes_once_the_chunk_size_is_passed() {
    let mut r = Reassembler::new(CompressionLevel::Default, 4, true);
    let mut w = Writer::new(Vec::new());
    // header and two bytes: four pending, not more than the chunk size
    r.submit(group(0, b"a", &[1, 2]), &mut w).unwrap();
    // one byte more: five pending, which go out
    r.submit(group(1, b"b", &[3]), &mut w).unwrap();
    r.submit(group(2, b"c", &[4, 5, 6]), &mut w).unwrap();
    let sum = r.finish(&mut w).unwrap();
    assert_eq!(sum, adler32_of(b"abc"));
    let mut expected = chunk(b"IDAT", &[0x78, 0x9c, 1, 2, 3]);
    expected.extend_from_slice(&chunk(b"IDAT", &[4, 5, 6, 0x01, 0x00, 0x00, 0xff, 0xff]));
    expected.extend_from_slice(&chunk(b"IDAT", &be(sum)));
    expected.extend_from_slice(&chunk(b"IEND", b""));
    assert_eq!(Writer::close(w).unwrap(), expected);
}

#[test]
fn running_checksum_is_combined_group_by_group() {
    let mut r = Reassembler::new(CompressionLevel::Default, 1000, false);
    let mut w = Writer::new(Vec::new());
    let first = CompressedGroup { index: 0, filtered_len: 4, adler: 0x1234_0567, data: Some(vec![]) };
    r.submit(first, &mut w).unwrap();
    assert_eq!(r.checksum(), adler32_combine(1, 0x1234_0567, 4));
}
