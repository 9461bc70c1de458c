use mtpng::{Error, Writer};

fn test_writer<F, G>(test_func: F, assert_func: G)
where
    F: Fn(&mut Writer) -> Result<(), Error>,
    G: Fn(&[u8]),
{
    let result = (|| -> Result<Vec<u8>, Error> {
        let output = Vec::<u8>::new();
        let mut writer = Writer::new(output);
        test_func(&mut writer)?;
        Writer::close(writer)
    })();
    match result {
        Ok(output) => assert_func(&output),
        Err(e) => assert!(false, "Error: {}", e.message()),
    }
}

#[test]
fn it_works() {
    test_writer(
        |_writer| Ok(()),
        |output| {
            assert_eq!(output.len(), 0);
        },
    )
}

#[test]
fn header_works() {
    test_writer(
        |writer| writer.write_signature(),
        |output| {
            assert_eq!(output.len(), 8);
        },
    )
}

#[test]
fn empty_chunk_works() {
    test_writer(
        |writer| writer.write_chunk(b"IDAT", b""),
        |output| {
            // 4 bytes len
            // 4 bytes tag
            // 4 bytes crc
            assert_eq!(output.len(), 12);
        },
    )
}

#[test]
fn full_chunk_works() {
    test_writer(
        |writer| writer.write_chunk(b"IDAT", b"01234567890123456789"),
        |output| {
            // 4 bytes len
            // 4 bytes tag
            // 20 bytes data
            // 4 bytes crc
            assert_eq!(output.len(), 32);
        },
    )
}

#[test]
fn crc_works() {
    // A 1x1 truecolor black pixel
    let one_pixel = b"\x08\x99\x63\x60\x60\x60\x00\x00\x00\x04\x00\x01";
    test_writer(
        |writer| writer.write_chunk(b"IDAT", one_pixel),
        |output| {
            assert_eq!(output[0..4], b"\x00\x00\x00\x0c"[..], "expected length 12");
            assert_eq!(output[4..8], b"IDAT"[..], "expected IDAT");
            assert_eq!(output[8..20], one_pixel[..], "expected data payload");
            assert_eq!(output[20..24], b"\xa3\x0a\x15\xe3"[..], "expected crc32");
        },
    )
}

fn written<F>(write: F) -> Vec<u8>
where
    F: Fn(&mut Writer) -> Result<(), Error>,
{
    let mut writer = Writer::new(Vec::new());
    write(&mut writer).unwrap();
    Writer::close(writer).unwrap()
}

#[test]
fn signature_is_the_png_magic() {
    let out = written(|w| w.write_signature());
    assert_eq!(out, vec![0x89, 0x50, 0x4e, 0x47, 0x0d, 0x0a, 0x1a, 0x0a]);
}

#[test]
fn empty_chunk_is_length_tag_and_crc() {
    let out = written(|w| w.write_chunk(b"IDAT", b""));
    assert_eq!(out[0..8], [0, 0, 0, 0, b'I', b'D', b'A', b'T']);
    assert_eq!(out[8..12], mtpng_crc(b"IDAT").to_be_bytes());
}

fn mtpng_crc(bytes: &[u8]) -> u32 {
    crc::crc32::checksum_ieee(bytes)
}

#[test]
fn end_chunk_has_the_known_bytes() {
    let out = written(|w| w.write_end());
    assert_eq!(out, vec![0, 0, 0, 0, b'I', b'E', b'N', b'D', 0xae, 0x42, 0x60, 0x82]);
}

#[test]
fn header_chunk_holds_thirteen_bytes_in_order() {
    let mut header = mtpng::Header::new();
    header.set_size(0x0102_0304, 5).unwrap();
    header.set_color(mtpng::ColorType::IndexedColor, 4).unwrap();
    let out = written(|w| w.write_header(header));
    assert_eq!(out.len(), 25);
    assert_eq!(out[0..4], [0, 0, 0, 13]);
    assert_eq!(out[4..8], b"IHDR"[..]);
    assert_eq!(out[8..21], [1, 2, 3, 4, 0, 0, 0, 5, 4, 3, 0, 0, 0]);
    assert_eq!(out[21..25], mtpng_crc(&out[4..21]).to_be_bytes());
}

#[test]
fn chunk_crc_covers_tag_and_data() {
    let out = written(|w| w.write_chunk(b"tEXt", b"hello"));
    assert_eq!(out[13..17], mtpng_crc(b"tEXthello").to_be_bytes());
    assert_ne!(out[13..17], mtpng_crc(b"hello").to_be_bytes());
}

#[test]
fn short_tag_is_refused_and_nothing_written() {
    let mut writer = Writer::new(vec![7]);
    let e = writer.write_chunk(b"IDA", b"x").unwrap_err();
    assert_eq!(e.kind(), mtpng::ErrorKind::InvalidInput);
    assert_eq!(e.message(), "Chunk tags must be 4 bytes");
    assert_eq!(Writer::close(writer).unwrap(), vec![7]);
}

#[test]
fn writer_appends_to_what_the_sink_held() {
    let mut writer = Writer::new(vec![1, 2, 3]);
    writer.write_signature().unwrap();
    writer.flush().unwrap();
    let out = Writer::close(writer).unwrap();
    assert_eq!(out.len(), 11);
    assert_eq!(out[0..3], [1, 2, 3]);
}

#[test]
fn split_cuts_data_into_chunks_of_the_limit() {
    let out = written(|w| w.write_split(b"IDAT", b"abcdefg", 3));
    let expected = {
        let mut all = Vec::new();
        for piece in [&b"abc"[..], &b"def"[..], &b"g"[..]] {
            all.extend_from_slice(&written(|w| w.write_chunk(b"IDAT", piece)));
        }
        all
    };
    assert_eq!(out, expected);
}

#[test]
fn split_writes_nothing_for_no_data_and_one_chunk_at_the_limit() {
    assert_eq!(written(|w| w.write_split(b"IDAT", b"", 3)), Vec::<u8>::new());
    assert_eq!(
        written(|w| w.write_split(b"IDAT", b"abc", 3)),
        written(|w| w.write_chunk(b"IDAT", b"abc"))
    );
}

#[test]
fn split_refuses_a_zero_limit() {
    let mut writer = Writer::new(Vec::new());
    let e = writer.write_split(b"IDAT", b"abc", 0).unwrap_err();
    assert_eq!(e.kind(), mtpng::ErrorKind::InvalidInput);
    assert_eq!(Writer::close(writer).unwrap().len(), 0);
}

#[test]
fn big_endian_helpers_append() {
    let mut out = vec![9u8];
    mtpng::writer::write_be32(&mut out, 0x0a0b_0c0d);
    mtpng::writer::write_byte(&mut out, 0xee);
    assert_eq!(out, vec![9, 0x0a, 0x0b, 0x0c, 0x0d, 0xee]);
}
