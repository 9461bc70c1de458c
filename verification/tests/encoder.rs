use mtpng::checksum::adler32_of;
use mtpng::{
    ColorType, CompressionLevel, Encoder, Error, ErrorKind, Filter, Header, Mode, Options, State,
    Strategy,
};

struct Decoded {
    width: u32,
    height: u32,
    color_type: u8,
    depth: u8,
    palette: Option<Vec<u8>>,
    transparency: Option<Vec<u8>>,
    pixels: Vec<u8>,
}

fn decode(bytes: &[u8]) -> Decoded {
    let mut decoder = png::Decoder::new(bytes);
    decoder.set_transformations(png::Transformations::IDENTITY);
    let (info, mut reader) = decoder.read_info().unwrap();
    let mut pixels = vec![0u8; info.buffer_size()];
    reader.next_frame(&mut pixels).unwrap();
    Decoded {
        width: info.width,
        height: info.height,
        color_type: info.color_type as u8,
        depth: info.bit_depth as u8,
        palette: reader.info().palette.clone(),
        transparency: reader.info().trns.clone(),
        pixels,
    }
}

fn header(width: u32, height: u32, color_type: ColorType, depth: u8) -> Header {
    let mut header = Header::new();
    header.set_size(width, height).unwrap();
    header.set_color(color_type, depth).unwrap();
    header
}

fn encode(
    header: &Header,
    options: &Options,
    palette: Option<&[u8]>,
    transparency: Option<&[u8]>,
    pixels: &[u8],
) -> Result<Vec<u8>, Error> {
    let mut encoder = Encoder::new(Vec::new(), options)?;
    encoder.write_header(header)?;
    if let Some(p) = palette {
        encoder.write_palette(p)?;
    }
    if let Some(t) = transparency {
        encoder.write_transparency(t)?;
    }
    encoder.write_image_rows(pixels)?;
    encoder.finish()
}

fn chunks(bytes: &[u8]) -> Vec<(Vec<u8>, Vec<u8>)> {
    assert_eq!(bytes[0..8], [0x89, 0x50, 0x4e, 0x47, 0x0d, 0x0a, 0x1a, 0x0a]);
    let mut found = Vec::new();
    let mut at = 8;
    while at < bytes.len() {
        let len = u32::from_be_bytes([bytes[at], bytes[at + 1], bytes[at + 2], bytes[at + 3]])
            as usize;
        let tag = bytes[at + 4..at + 8].to_vec();
        let data = bytes[at + 8..at + 8 + len].to_vec();
        let crc = u32::from_be_bytes([
            bytes[at + 8 + len],
            bytes[at + 9 + len],
            bytes[at + 10 + len],
            bytes[at + 11 + len],
        ]);
        assert_eq!(crc, crc::crc32::checksum_ieee(&bytes[at + 4..at + 8 + len]));
        found.push((tag, data));
        at += 12 + len;
    }
    assert_eq!(at, bytes.len());
    found
}

fn zlib_stream(bytes: &[u8]) -> Vec<u8> {
    let mut stream = Vec::new();
    for (tag, data) in chunks(bytes) {
        if tag == b"IDAT" {
            stream.extend_from_slice(&data);
        }
    }
    stream
}

fn noise(len: usize, seed: u32) -> Vec<u8> {
    let mut state = seed;
    let mut out = Vec::with_capacity(len);
    for _ in 0..len {
        state = state.wrapping_mul(1664525).wrapping_add(1013904223);
        out.push((state >> 24) as u8);
    }
    out
}

#[test]
fn one_black_pixel() {
    let options = Options::new();
    let header = header(1, 1, ColorType::Truecolor, 8);
    let out = encode(&header, &options, None, None, &[0, 0, 0]).unwrap();
    let image = decode(&out);
    assert_eq!((image.width, image.height), (1, 1));
    assert_eq!((image.color_type, image.depth), (2, 8));
    assert_eq!(image.pixels, vec![0, 0, 0]);
    let filtered = miniz_oxide::inflate::decompress_to_vec_zlib(&zlib_stream(&out)).unwrap();
    assert_eq!(filtered, vec![0, 0, 0, 0]);
}

#[test]
fn large_rgba_round_trip_on_eight_threads() {
    let pool = rayon::ThreadPoolBuilder::new().num_threads(8).build().unwrap();
    let mut options = Options::new();
    options.set_thread_pool(&pool).unwrap();
    options.set_chunk_size(65536).unwrap();
    let header = header(1024, 1024, ColorType::TruecolorAlpha, 8);
    let pixels = noise(1024 * 1024 * 4, 7);
    let out = encode(&header, &options, None, None, &pixels).unwrap();
    let image = decode(&out);
    assert_eq!((image.width, image.height), (1024, 1024));
    assert!(image.pixels == pixels);
}

fn all_kinds() -> Vec<(ColorType, u8)> {
    let mut kinds = Vec::new();
    for depth in [1u8, 2, 4, 8, 16] {
        kinds.push((ColorType::Greyscale, depth));
    }
    for depth in [1u8, 2, 4, 8] {
        kinds.push((ColorType::IndexedColor, depth));
    }
    for color in [ColorType::Truecolor, ColorType::GreyscaleAlpha, ColorType::TruecolorAlpha] {
        for depth in [8u8, 16] {
            kinds.push((color, depth));
        }
    }
    kinds
}

fn image_for(h: &Header, seed: u32) -> (Vec<u8>, Option<Vec<u8>>) {
    let pixels = noise(h.stride() as usize * h.height as usize, seed);
    let palette = if h.color_type == ColorType::IndexedColor {
        Some(noise(3 << h.depth, seed + 1))
    } else {
        None
    };
    (pixels, palette)
}

#[test]
fn every_color_type_and_depth_round_trips() {
    for (color, depth) in all_kinds() {
        for mode in [Mode::Adaptive, Mode::Fixed(Filter::Paeth)] {
            let h = header(13, 7, color, depth);
            let (pixels, palette) = image_for(&h, depth as u32);
            let mut options = Options::new();
            options.set_filter_mode(mode).unwrap();
            options.set_chunk_size(40).unwrap();
            let out = encode(&h, &options, palette.as_deref(), None, &pixels).unwrap();
            let image = decode(&out);
            assert_eq!((image.width, image.height), (13, 7));
            assert_eq!((image.color_type, image.depth), (color.to_u8(), depth));
            assert_eq!(image.palette, palette);
            assert_eq!(image.pixels, pixels);
        }
    }
}

#[test]
fn every_level_and_strategy_round_trips() {
    let h = header(64, 64, ColorType::Truecolor, 8);
    let pixels: Vec<u8> = (0..64 * 64 * 3u32).map(|i| ((i / 7) % 256) as u8).collect();
    for level in [CompressionLevel::Fast, CompressionLevel::Default, CompressionLevel::High] {
        for strategy in [
            Mode::Adaptive,
            Mode::Fixed(Strategy::Default),
            Mode::Fixed(Strategy::Filtered),
            Mode::Fixed(Strategy::HuffmanOnly),
            Mode::Fixed(Strategy::RLE),
            Mode::Fixed(Strategy::Fixed),
        ] {
            let mut options = Options::new();
            options.set_compression_level(level).unwrap();
            options.set_strategy_mode(strategy).unwrap();
            options.set_chunk_size(1000).unwrap();
            let out = encode(&h, &options, None, None, &pixels).unwrap();
            assert_eq!(decode(&out).pixels, pixels);
            let flag = match level {
                CompressionLevel::Fast => 0x01,
                CompressionLevel::Default => 0x9c,
                CompressionLevel::High => 0xda,
            };
            assert_eq!(zlib_stream(&out)[0..2], [0x78, flag]);
        }
    }
}

#[test]
fn chunks_are_framed_from_header_to_end() {
    let h = header(16, 16, ColorType::GreyscaleAlpha, 8);
    let (pixels, _) = image_for(&h, 3);
    let mut options = Options::new();
    options.set_chunk_size(64).unwrap();
    options.set_streaming(true).unwrap();
    let out = encode(&h, &options, None, None, &pixels).unwrap();
    // `chunks` checks the signature, every length and every CRC.
    let found = chunks(&out);
    assert_eq!(found[0].0, b"IHDR");
    assert_eq!(found[0].1, vec![0, 0, 0, 16, 0, 0, 0, 16, 8, 4, 0, 0, 0]);
    assert_eq!(found[found.len() - 1], (b"IEND".to_vec(), vec![]));
    assert!(found.len() > 4);
    for (tag, _) in &found[1..found.len() - 1] {
        assert_eq!(tag, b"IDAT");
    }
}

#[test]
fn same_input_gives_the_same_bytes() {
    let pool = rayon::ThreadPoolBuilder::new().num_threads(4).build().unwrap();
    let mut options = Options::new();
    options.set_thread_pool(&pool).unwrap();
    options.set_chunk_size(512).unwrap();
    let h = header(100, 60, ColorType::Truecolor, 8);
    let (pixels, _) = image_for(&h, 11);
    let first = encode(&h, &options, None, None, &pixels).unwrap();
    let second = encode(&h, &options, None, None, &pixels).unwrap();
    assert!(first == second);
}

#[test]
fn thread_count_does_not_change_the_output() {
    let h = header(100, 60, ColorType::TruecolorAlpha, 8);
    let (pixels, _) = image_for(&h, 5);
    let mut plain = Options::new();
    plain.set_chunk_size(700).unwrap();
    let reference = encode(&h, &plain, None, None, &pixels).unwrap();
    assert_eq!(decode(&reference).pixels, pixels);
    for threads in 1..=6 {
        let pool = rayon::ThreadPoolBuilder::new().num_threads(threads).build().unwrap();
        let mut options = Options::new();
        options.set_thread_pool(&pool).unwrap();
        options.set_chunk_size(700).unwrap();
        let out = encode(&h, &options, None, None, &pixels).unwrap();
        assert!(out == reference);
    }
}

#[test]
fn stream_ends_with_adler32_of_filtered_bytes() {
    let h = header(50, 40, ColorType::Truecolor, 8);
    let (pixels, _) = image_for(&h, 21);
    for streaming in [false, true] {
        let mut options = Options::new();
        options.set_chunk_size(300).unwrap();
        options.set_streaming(streaming).unwrap();
        let out = encode(&h, &options, None, None, &pixels).unwrap();
        let stream = zlib_stream(&out);
        let filtered = miniz_oxide::inflate::decompress_to_vec_zlib(&stream).unwrap();
        assert_eq!(filtered.len(), 40 * 151);
        assert_eq!(stream[stream.len() - 4..], adler32_of(&filtered).to_be_bytes());
    }
}

#[test]
fn fixed_filter_marks_every_row() {
    let h = header(20, 30, ColorType::Greyscale, 8);
    let (pixels, _) = image_for(&h, 2);
    for (f, code) in [
        (Filter::NoFilter, 0u8),
        (Filter::Sub, 1),
        (Filter::Up, 2),
        (Filter::Average, 3),
        (Filter::Paeth, 4),
    ] {
        let mut options = Options::new();
        options.set_filter_mode(Mode::Fixed(f)).unwrap();
        options.set_chunk_size(100).unwrap();
        let out = encode(&h, &options, None, None, &pixels).unwrap();
        let filtered = miniz_oxide::inflate::decompress_to_vec_zlib(&zlib_stream(&out)).unwrap();
        assert_eq!(filtered.len(), 30 * 21);
        for row in 0..30 {
            assert_eq!(filtered[row * 21], code);
        }
        assert_eq!(decode(&out).pixels, pixels);
    }
}

#[test]
fn unfiltered_rows_pass_unchanged() {
    let h = header(4, 2, ColorType::Greyscale, 8);
    let mut options = Options::new();
    options.set_filter_mode(Mode::Fixed(Filter::NoFilter)).unwrap();
    let out = encode(&h, &options, None, None, &[1, 2, 3, 4, 5, 6, 7, 8]).unwrap();
    let filtered = miniz_oxide::inflate::decompress_to_vec_zlib(&zlib_stream(&out)).unwrap();
    assert_eq!(filtered, vec![0, 1, 2, 3, 4, 0, 5, 6, 7, 8]);
}

#[test]
fn rows_across_groups_filter_against_the_row_above() {
    let h = header(2, 4, ColorType::Greyscale, 8);
    let mut options = Options::new();
    options.set_filter_mode(Mode::Fixed(Filter::Up)).unwrap();
    options.set_chunk_size(2).unwrap();
    let out = encode(&h, &options, None, None, &[1, 2, 3, 5, 7, 11, 13, 17]).unwrap();
    let filtered = miniz_oxide::inflate::decompress_to_vec_zlib(&zlib_stream(&out)).unwrap();
    assert_eq!(filtered, vec![2, 1, 2, 2, 2, 3, 2, 4, 6, 2, 6, 6]);
}

#[test]
fn one_final_block_closes_the_stream() {
    let h = header(30, 30, ColorType::Truecolor, 8);
    let (pixels, _) = image_for(&h, 9);
    let mut options = Options::new();
    options.set_chunk_size(200).unwrap();
    let out = encode(&h, &options, None, None, &pixels).unwrap();
    let stream = zlib_stream(&out);
    let n = stream.len();
    assert_eq!(stream[n - 9..n - 4], [0x01, 0x00, 0x00, 0xff, 0xff]);
    // Cut before the final block, the stream is not complete.
    assert!(miniz_oxide::inflate::decompress_to_vec_zlib(&stream[..n - 9]).is_err());
    assert!(miniz_oxide::inflate::decompress_to_vec_zlib(&stream).is_ok());
}

#[test]
fn rows_before_the_header_are_refused() {
    let options = Options::new();
    let mut encoder = Encoder::new(vec![1, 2, 3], &options).unwrap();
    let e = encoder.write_image_rows(&[0, 0, 0]).unwrap_err();
    assert_eq!(e.kind(), ErrorKind::InvalidState);
    assert_eq!(encoder.state(), State::Fresh);
    let e = encoder.finish().unwrap_err();
    assert_eq!(e.kind(), ErrorKind::InvalidState);
    // The sink is as it was: the stream follows the bytes it held.
    encoder.write_header(&header(1, 1, ColorType::Truecolor, 8)).unwrap();
    encoder.write_image_rows(&[0, 0, 0]).unwrap();
    let out = encoder.finish().unwrap();
    assert_eq!(out[0..3], [1, 2, 3]);
    let clean = encode(&header(1, 1, ColorType::Truecolor, 8), &options, None, None, &[0, 0, 0]);
    assert_eq!(out[3..], clean.unwrap()[..]);
}

#[test]
fn palette_after_a_row_is_refused() {
    let options = Options::new();
    let mut encoder = Encoder::new(Vec::new(), &options).unwrap();
    encoder.write_header(&header(1, 2, ColorType::Truecolor, 8)).unwrap();
    encoder.write_image_rows(&[1, 2, 3]).unwrap();
    assert_eq!(encoder.state(), State::RowsStreaming);
    let e = encoder.write_palette(&[0, 0, 0]).unwrap_err();
    assert_eq!(e.kind(), ErrorKind::InvalidState);
    let e = encoder.write_transparency(&[0, 0, 0, 0, 0, 0]).unwrap_err();
    assert_eq!(e.kind(), ErrorKind::InvalidState);
    let e = encoder.write_header(&header(1, 2, ColorType::Truecolor, 8)).unwrap_err();
    assert_eq!(e.kind(), ErrorKind::InvalidState);
    assert_eq!(encoder.state(), State::RowsStreaming);
    encoder.write_image_rows(&[4, 5, 6]).unwrap();
    let out = encoder.finish().unwrap();
    assert_eq!(decode(&out).pixels, vec![1, 2, 3, 4, 5, 6]);
    assert_eq!(encoder.state(), State::Finished);
    assert_eq!(encoder.write_image_rows(&[]).unwrap_err().kind(), ErrorKind::InvalidState);
    assert_eq!(encoder.finish().unwrap_err().kind(), ErrorKind::InvalidState);
}

#[test]
fn states_follow_the_operations() {
    let options = Options::new();
    let mut encoder = Encoder::new(Vec::new(), &options).unwrap();
    assert_eq!(encoder.state(), State::Fresh);
    encoder.write_header(&header(1, 1, ColorType::IndexedColor, 8)).unwrap();
    assert_eq!(encoder.state(), State::HeaderWritten);
    encoder.write_palette(&[1, 2, 3, 4, 5, 6]).unwrap();
    assert_eq!(encoder.state(), State::PaletteWritten);
    assert_eq!(encoder.write_palette(&[1, 2, 3]).unwrap_err().kind(), ErrorKind::InvalidState);
    encoder.write_transparency(&[9, 8]).unwrap();
    assert_eq!(encoder.state(), State::TransparencyWritten);
    assert_eq!(encoder.bytes_missing(), 1);
    encoder.write_image_rows(&[1]).unwrap();
    assert_eq!(encoder.bytes_missing(), 0);
    encoder.finish().unwrap();
}

#[test]
fn bad_input_is_refused_and_changes_nothing() {
    let options = Options::new();
    let mut encoder = Encoder::new(Vec::new(), &options).unwrap();
    let mut bad = Header::new();
    bad.width = 0;
    assert_eq!(encoder.write_header(&bad).unwrap_err().kind(), ErrorKind::InvalidInput);
    assert_eq!(encoder.state(), State::Fresh);
    encoder.write_header(&header(2, 2, ColorType::IndexedColor, 8)).unwrap();
    for palette in [&[1u8, 2][..], &[0u8; 771][..], &[0u8; 769][..]] {
        assert_eq!(encoder.write_palette(palette).unwrap_err().kind(), ErrorKind::InvalidInput);
    }
    // no transparency, and no rows, for an indexed image without palette
    assert_eq!(encoder.write_transparency(&[1]).unwrap_err().kind(), ErrorKind::InvalidInput);
    let e = encoder.write_image_rows(&[0]).unwrap_err();
    assert_eq!(e.kind(), ErrorKind::InvalidInput);
    assert_eq!(e.message(), "An indexed image needs its palette before its rows");
    assert_eq!(encoder.state(), State::HeaderWritten);
    encoder.write_palette(&[1, 2, 3, 4, 5, 6]).unwrap();
    // more transparency entries than palette entries
    assert_eq!(encoder.write_transparency(&[1, 2, 3]).unwrap_err().kind(), ErrorKind::InvalidInput);
    assert_eq!(encoder.state(), State::PaletteWritten);
    // more bytes than the image has
    assert_eq!(encoder.write_image_rows(&[0; 5]).unwrap_err().kind(), ErrorKind::InvalidInput);
    assert_eq!(encoder.state(), State::PaletteWritten);
    encoder.write_image_rows(&[0; 3]).unwrap();
    // not yet complete
    assert_eq!(encoder.finish().unwrap_err().kind(), ErrorKind::InvalidInput);
    assert_eq!(encoder.write_image_rows(&[0; 2]).unwrap_err().kind(), ErrorKind::InvalidInput);
    encoder.write_image_rows(&[1]).unwrap();
    let out = encoder.finish().unwrap();
    assert_eq!(decode(&out).pixels, vec![0, 0, 0, 1]);
}

#[test]
fn finish_without_rows_is_refused() {
    let options = Options::new();
    let mut encoder = Encoder::new(Vec::new(), &options).unwrap();
    encoder.write_header(&header(1, 1, ColorType::Greyscale, 8)).unwrap();
    assert_eq!(encoder.finish().unwrap_err().kind(), ErrorKind::InvalidInput);
    assert_eq!(encoder.state(), State::HeaderWritten);
}

#[test]
fn transparency_must_suit_the_color_type() {
    let options = Options::new();
    for (color, good, bad) in [
        (ColorType::Greyscale, &[0u8, 1][..], &[0u8][..]),
        (ColorType::Truecolor, &[0u8, 1, 0, 2, 0, 3][..], &[0u8, 1][..]),
    ] {
        let mut encoder = Encoder::new(Vec::new(), &options).unwrap();
        encoder.write_header(&header(1, 1, color, 8)).unwrap();
        assert_eq!(encoder.write_transparency(bad).unwrap_err().kind(), ErrorKind::InvalidInput);
        encoder.write_transparency(good).unwrap();
    }
    for color in [ColorType::GreyscaleAlpha, ColorType::TruecolorAlpha] {
        let mut encoder = Encoder::new(Vec::new(), &options).unwrap();
        encoder.write_header(&header(1, 1, color, 8)).unwrap();
        assert_eq!(encoder.write_transparency(&[0, 1]).unwrap_err().kind(), ErrorKind::InvalidInput);
    }
}

#[test]
fn indexed_image_with_palette_and_transparency() {
    let h = header(256, 256, ColorType::IndexedColor, 8);
    let palette = noise(768, 31);
    let transparency = noise(200, 32);
    let pixels = noise(256 * 256, 33);
    let pool = rayon::ThreadPoolBuilder::new().num_threads(3).build().unwrap();
    let mut options = Options::new();
    options.set_thread_pool(&pool).unwrap();
    options.set_chunk_size(4096).unwrap();
    let out = encode(&h, &options, Some(&palette), Some(&transparency), &pixels).unwrap();
    let found = chunks(&out);
    assert_eq!(found[1].0, b"PLTE");
    assert_eq!(found[1].1.len(), 768);
    assert_eq!(found[2].0, b"tRNS");
    assert!(found[2].1.len() <= 256);
    assert_eq!(found[3].0, b"IDAT");
    let image = decode(&out);
    assert_eq!(image.palette, Some(palette));
    assert_eq!(image.transparency, Some(transparency));
    assert!(image.pixels == pixels);
}

#[test]
fn streaming_and_not_decode_alike() {
    let h = header(200, 100, ColorType::Truecolor, 8);
    let (pixels, _) = image_for(&h, 77);
    let mut options = Options::new();
    options.set_chunk_size(5000).unwrap();
    let whole = encode(&h, &options, None, None, &pixels).unwrap();
    options.set_streaming(true).unwrap();
    let streamed = encode(&h, &options, None, None, &pixels).unwrap();
    assert!(whole != streamed);
    assert_eq!(zlib_stream(&whole), zlib_stream(&streamed));
    let count = |out: &[u8]| chunks(out).iter().filter(|c| c.0 == b"IDAT").count();
    assert_eq!(count(&whole), 1);
    assert!(count(&streamed) > 2);
    assert!(decode(&whole).pixels == pixels);
    assert!(decode(&streamed).pixels == pixels);
}

#[test]
fn streaming_puts_the_checksum_in_a_chunk_of_its_own() {
    let h = header(10, 10, ColorType::Greyscale, 8);
    let (pixels, _) = image_for(&h, 4);
    let mut options = Options::new();
    options.set_chunk_size(20).unwrap();
    options.set_streaming(true).unwrap();
    let out = encode(&h, &options, None, None, &pixels).unwrap();
    let found = chunks(&out);
    let last_data = &found[found.len() - 2];
    assert_eq!(last_data.0, b"IDAT");
    assert_eq!(last_data.1.len(), 4);
    let filtered = miniz_oxide::inflate::decompress_to_vec_zlib(&zlib_stream(&out)).unwrap();
    assert_eq!(last_data.1, adler32_of(&filtered).to_be_bytes());
}

#[test]
fn rows_may_come_in_pieces() {
    let h = header(17, 23, ColorType::Truecolor, 16);
    let (pixels, _) = image_for(&h, 13);
    let mut options = Options::new();
    options.set_chunk_size(250).unwrap();
    let at_once = encode(&h, &options, None, None, &pixels).unwrap();
    for step in [1usize, 7, 102, 103, 1000] {
        let mut encoder = Encoder::new(Vec::new(), &options).unwrap();
        encoder.write_header(&h).unwrap();
        for piece in pixels.chunks(step) {
            encoder.write_image_rows(piece).unwrap();
        }
        assert!(encoder.finish().unwrap() == at_once);
    }
}

#[test]
fn encode_image_is_the_sequence_of_operations() {
    let h = header(31, 9, ColorType::IndexedColor, 4);
    let (pixels, palette) = image_for(&h, 8);
    let options = Options::new();
    let palette = palette.unwrap();
    let by_hand = encode(&h, &options, Some(&palette), Some(&[1, 2]), &pixels).unwrap();
    let in_one =
        mtpng::encode_image(&options, &h, Some(&palette), Some(&[1, 2]), &pixels).unwrap();
    assert_eq!(by_hand, in_one);
}

#[test]
fn encode_image_reports_the_first_failure() {
    let options = Options::new();
    let h = header(2, 2, ColorType::IndexedColor, 8);
    let kind = |p: Option<&[u8]>, t: Option<&[u8]>, px: &[u8]| {
        mtpng::encode_image(&options, &h, p, t, px).unwrap_err().kind()
    };
    assert_eq!(kind(Some(&[1, 2]), None, &[0; 4]), ErrorKind::InvalidInput);
    assert_eq!(kind(None, Some(&[1]), &[0; 4]), ErrorKind::InvalidInput);
    assert_eq!(kind(None, None, &[0; 4]), ErrorKind::InvalidInput);
    assert_eq!(kind(Some(&[1, 2, 3]), None, &[0; 3]), ErrorKind::InvalidInput);
    assert_eq!(kind(Some(&[1, 2, 3]), None, &[0; 5]), ErrorKind::InvalidInput);
    let mut bad = h;
    bad.height = 0;
    let e = mtpng::encode_image(&options, &bad, Some(&[1, 2, 3]), None, &[]).unwrap_err();
    assert_eq!(e.kind(), ErrorKind::InvalidInput);
}

#[test]
fn no_bytes_are_accepted_without_work() {
    let options = Options::new();
    let mut encoder = Encoder::new(Vec::new(), &options).unwrap();
    encoder.write_header(&header(2, 2, ColorType::Greyscale, 8)).unwrap();
    encoder.write_image_rows(&[]).unwrap();
    assert_eq!(encoder.state(), State::RowsStreaming);
    assert_eq!(encoder.bytes_missing(), 4);
    // a partial group completes nothing either
    encoder.write_image_rows(&[1, 2, 3]).unwrap();
    encoder.write_image_rows(&[4]).unwrap();
    assert_eq!(decode(&encoder.finish().unwrap()).pixels, vec![1, 2, 3, 4]);
}

#[test]
fn output_can_be_taken_while_rows_come() {
    let h = header(40, 40, ColorType::Truecolor, 8);
    let (pixels, _) = image_for(&h, 19);
    let mut options = Options::new();
    options.set_chunk_size(600).unwrap();
    options.set_streaming(true).unwrap();
    let at_once = encode(&h, &options, None, None, &pixels).unwrap();
    let mut encoder = Encoder::new(vec![9, 9], &options).unwrap();
    assert_eq!(encoder.take_output(), vec![9, 9]);
    assert_eq!(encoder.take_output(), Vec::<u8>::new());
    encoder.write_header(&h).unwrap();
    let mut taken = encoder.take_output();
    assert_eq!(taken.len(), 8 + 25);
    let mut pieces = 0;
    for piece in pixels.chunks(1200) {
        encoder.write_image_rows(piece).unwrap();
        let part = encoder.take_output();
        if !part.is_empty() {
            pieces += 1;
        }
        taken.extend_from_slice(&part);
    }
    assert!(pieces > 2);
    taken.extend_from_slice(&encoder.finish().unwrap());
    assert!(taken == at_once);
    assert!(decode(&taken).pixels == pixels);
}

#[test]
fn encoder_works_on_the_pool_of_its_options() {
    let pool = rayon::ThreadPoolBuilder::new().num_threads(2).build().unwrap();
    let mut options = Options::new();
    assert!(Encoder::new(Vec::new(), &options).unwrap().thread_pool().is_none());
    options.set_thread_pool(&pool).unwrap();
    let encoder = Encoder::new(Vec::new(), &options).unwrap();
    assert!(std::ptr::eq(encoder.thread_pool().unwrap(), &pool));
    assert!(std::ptr::eq(options.thread_pool().unwrap(), &pool));
}

#[test]
fn refusals_say_what_is_wrong() {
    let options = Options::new();
    let mut encoder = Encoder::new(Vec::new(), &options).unwrap();
    let text = |r: Result<(), Error>| r.unwrap_err().message();
    assert_eq!(text(encoder.write_palette(&[])), "The palette must follow the header");
    assert_eq!(
        text(encoder.write_transparency(&[])),
        "Transparency must come before the rows"
    );
    assert_eq!(
        text(encoder.write_image_rows(&[])),
        "Rows must come between the header and the end"
    );
    assert_eq!(encoder.finish().unwrap_err().message(), "There is no image to finish");
    let mut bad = Header::new();
    bad.depth = 7;
    assert_eq!(text(encoder.write_header(&bad)), "Invalid image header");
    encoder.write_header(&header(1, 1, ColorType::Greyscale, 8)).unwrap();
    assert_eq!(
        text(encoder.write_header(&bad)),
        "The header must be written first, and once"
    );
    assert_eq!(
        text(encoder.write_palette(&[1])),
        "A palette has up to 256 entries of 3 bytes"
    );
    assert_eq!(
        text(encoder.write_transparency(&[1])),
        "Transparency data does not suit the color type"
    );
    assert_eq!(
        text(encoder.write_image_rows(&[1, 2])),
        "More image data than the header allows"
    );
    assert_eq!(encoder.finish().unwrap_err().message(), "The image is not complete");
    let e = mtpng::encode_image(&options, &header(1, 1, ColorType::Greyscale, 8), None, None, &[]);
    assert_eq!(e.unwrap_err().message(), "The image data does not fit the header");
}
