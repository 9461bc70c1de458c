use mtpng::args::{
    parse_count, parse_filter_mode, parse_level, parse_strategy_mode, parse_streaming,
    read_options, same_text,
};
use mtpng::{err, CompressionLevel, ErrorKind, Filter, Mode, Options, Strategy};

#[test]
fn err_carries_its_payload() {
    let e = err("nope");
    assert_eq!(e.kind(), ErrorKind::Other);
    assert_eq!(e.message(), "nope");
}

#[test]
fn texts_are_compared_whole() {
    assert!(same_text("abc", "abc"));
    assert!(!same_text("abc", "abcd"));
    assert!(!same_text("", "a"));
}

#[test]
fn filter_names() {
    assert_eq!(parse_filter_mode("adaptive").unwrap(), Mode::Adaptive);
    assert_eq!(parse_filter_mode("none").unwrap(), Mode::Fixed(Filter::NoFilter));
    assert_eq!(parse_filter_mode("up").unwrap(), Mode::Fixed(Filter::Up));
    assert_eq!(parse_filter_mode("sub").unwrap(), Mode::Fixed(Filter::Sub));
    assert_eq!(parse_filter_mode("average").unwrap(), Mode::Fixed(Filter::Average));
    assert_eq!(parse_filter_mode("paeth").unwrap(), Mode::Fixed(Filter::Paeth));
    let e = parse_filter_mode("Paeth").unwrap_err();
    assert_eq!(e.kind(), ErrorKind::Other);
    assert_eq!(e.message(), "Unsupported filter type");
}

#[test]
fn level_names() {
    assert_eq!(parse_level("default").unwrap(), CompressionLevel::Default);
    assert_eq!(parse_level("1").unwrap(), CompressionLevel::Fast);
    assert_eq!(parse_level("9").unwrap(), CompressionLevel::High);
    let e = parse_level("6").unwrap_err();
    assert_eq!(e.message(), "Unsupported compression level (try default, 1, or 9)");
}

#[test]
fn strategy_names() {
    assert_eq!(parse_strategy_mode("auto").unwrap(), Mode::Adaptive);
    assert_eq!(parse_strategy_mode("default").unwrap(), Mode::Fixed(Strategy::Default));
    assert_eq!(parse_strategy_mode("filtered").unwrap(), Mode::Fixed(Strategy::Filtered));
    assert_eq!(parse_strategy_mode("huffman").unwrap(), Mode::Fixed(Strategy::HuffmanOnly));
    assert_eq!(parse_strategy_mode("rle").unwrap(), Mode::Fixed(Strategy::RLE));
    assert_eq!(parse_strategy_mode("fixed").unwrap(), Mode::Fixed(Strategy::Fixed));
    let e = parse_strategy_mode("adaptive").unwrap_err();
    assert_eq!(e.message(), "Invalid compression strategy mode");
}

#[test]
fn streaming_names() {
    assert_eq!(parse_streaming("yes").unwrap(), true);
    assert_eq!(parse_streaming("no").unwrap(), false);
    let e = parse_streaming("true").unwrap_err();
    assert_eq!(e.message(), "Invalid streaming mode, try yes or no.");
}

#[test]
fn counts_are_decimal_digits() {
    assert_eq!(parse_count("0"), Some(0));
    assert_eq!(parse_count("65536"), Some(65536));
    assert_eq!(parse_count("+12"), Some(12));
    assert_eq!(parse_count("007"), Some(7));
    for bad in ["", "+", "-1", "12a", " 1", "1 ", "++1", "1+", "0x10", "١٢"] {
        assert_eq!(parse_count(bad), None);
    }
}

#[test]
fn counts_stop_at_the_largest_usize() {
    let max = usize::MAX.to_string();
    assert_eq!(parse_count(&max), Some(usize::MAX));
    let mut over = max.clone();
    over.push('0');
    assert_eq!(parse_count(&over), None);
    assert_eq!(parse_count("99999999999999999999999999999999999999999"), None);
}

#[test]
fn counts_agree_with_the_standard_parser() {
    let texts = [
        "", "+", "-", "0", "+0", "-0", "1", "10", "0010", "4294967295", "4294967296",
        "18446744073709551615", "18446744073709551616", "18446744073709551625", "1e3", "1_000",
        "12 ", "+-1", "abc", "９",
    ];
    for text in texts {
        assert_eq!(parse_count(text), text.parse::<usize>().ok());
    }
}

#[test]
fn options_are_read_in_order() {
    let pool = rayon::ThreadPoolBuilder::new().num_threads(2).build().unwrap();
    let options =
        read_options(&pool, Some("65536"), Some("up"), Some("9"), Some("rle"), Some("yes"))
            .unwrap();
    let s = options.settings();
    assert_eq!(s.chunk_size, 65536);
    assert_eq!(s.filter_mode, Mode::Fixed(Filter::Up));
    assert_eq!(s.compression_level, CompressionLevel::High);
    assert_eq!(s.strategy_mode, Mode::Fixed(Strategy::RLE));
    assert!(s.streaming);
    assert!(options.thread_pool().is_some());
}

#[test]
fn unnamed_options_keep_their_defaults() {
    let pool = rayon::ThreadPoolBuilder::new().num_threads(1).build().unwrap();
    let read = read_options(&pool, None, None, None, None, None).unwrap().settings();
    let fresh = Options::new().settings();
    assert_eq!(read.chunk_size, 200_000);
    assert_eq!(read.chunk_size, fresh.chunk_size);
    assert_eq!(read.filter_mode, Mode::Adaptive);
    assert_eq!(read.compression_level, CompressionLevel::Default);
    assert_eq!(read.strategy_mode, Mode::Adaptive);
    assert!(!read.streaming);
}

#[test]
fn the_first_bad_option_decides_the_error() {
    let pool = rayon::ThreadPoolBuilder::new().num_threads(1).build().unwrap();
    let e = read_options(&pool, Some("many"), Some("bogus"), None, None, None).err().unwrap();
    assert_eq!((e.kind(), e.message()), (ErrorKind::Other, "Invalid chunk size".to_string()));
    let e = read_options(&pool, Some("0"), Some("bogus"), None, None, None).err().unwrap();
    assert_eq!(e.kind(), ErrorKind::InvalidInput);
    let e = read_options(&pool, Some("1"), Some("bogus"), Some("x"), None, None).err().unwrap();
    assert_eq!(e.message(), "Unsupported filter type");
    let e = read_options(&pool, None, None, None, None, Some("maybe")).err().unwrap();
    assert_eq!(e.message(), "Invalid streaming mode, try yes or no.");
}

#[test]
fn chunk_size_zero_is_refused_on_set() {
    let mut options = Options::new();
    let e = options.set_chunk_size(0).unwrap_err();
    assert_eq!(e.kind(), ErrorKind::InvalidInput);
    assert_eq!(options.settings().chunk_size, 200_000);
}

#[test]
fn strategy_left_open_follows_the_filter() {
    let mut options = Options::new();
    assert_eq!(options.settings().effective_strategy(), Strategy::Filtered);
    options.set_filter_mode(Mode::Fixed(Filter::NoFilter)).unwrap();
    assert_eq!(options.settings().effective_strategy(), Strategy::Default);
    options.set_strategy_mode(Mode::Fixed(Strategy::HuffmanOnly)).unwrap();
    assert_eq!(options.settings().effective_strategy(), Strategy::HuffmanOnly);
}

#[test]
fn every_bad_option_has_its_text() {
    let pool = rayon::ThreadPoolBuilder::new().num_threads(1).build().unwrap();
    let fault = |c, f, l, s, t| {
        let e = read_options(&pool, c, f, l, s, t).err().unwrap();
        (e.kind(), e.message())
    };
    assert_eq!(
        fault(Some("0"), None, None, None, None),
        (ErrorKind::InvalidInput, "Chunk size must be at least 1 byte".to_string())
    );
    assert_eq!(
        fault(None, Some("best"), None, None, None),
        (ErrorKind::Other, "Unsupported filter type".to_string())
    );
    assert_eq!(
        fault(None, None, Some("5"), None, None),
        (ErrorKind::Other, "Unsupported compression level (try default, 1, or 9)".to_string())
    );
    assert_eq!(
        fault(None, None, None, Some("lz"), None),
        (ErrorKind::Other, "Invalid compression strategy mode".to_string())
    );
    assert_eq!(
        fault(None, None, None, None, Some("on")),
        (ErrorKind::Other, "Invalid streaming mode, try yes or no.".to_string())
    );
}
