//! Options as a command line names them: the words for filters, levels
//! and strategies, and the numbers for sizes and counts.

use vstd::prelude::*;
use vstd::string::is_ascii_spec_bytes;
use crate::error::{err, Error, ErrorKind};
use crate::options::{CompressionLevel, Filter, Mode, Options, Settings, Strategy};

verus! {

/// Whether two texts are the same.
pub fn same_text(a: &str, b: &str) -> (same: bool)
    ensures
        same == (a@ == b@),
{
    a.to_owned() == b.to_owned()
}

/// The filter mode that a word names.
pub open spec fn filter_mode_named(name: Seq<char>) -> Option<Mode<Filter>> {
    if name == "adaptive"@ {
        Some(Mode::Adaptive)
    } else if name == "none"@ {
        Some(Mode::Fixed(Filter::NoFilter))
    } else if name == "up"@ {
        Some(Mode::Fixed(Filter::Up))
    } else if name == "sub"@ {
        Some(Mode::Fixed(Filter::Sub))
    } else if name == "average"@ {
        Some(Mode::Fixed(Filter::Average))
    } else if name == "paeth"@ {
        Some(Mode::Fixed(Filter::Paeth))
    } else {
        None
    }
}

/// The compression level that a word names.
pub open spec fn level_named(name: Seq<char>) -> Option<CompressionLevel> {
    if name == "default"@ {
        Some(CompressionLevel::Default)
    } else if name == "1"@ {
        Some(CompressionLevel::Fast)
    } else if name == "9"@ {
        Some(CompressionLevel::High)
    } else {
        None
    }
}

/// The strategy mode that a word names.
pub open spec fn strategy_mode_named(name: Seq<char>) -> Option<Mode<Strategy>> {
    if name == "auto"@ {
        Some(Mode::Adaptive)
    } else if name == "default"@ {
        Some(Mode::Fixed(Strategy::Default))
    } else if name == "filtered"@ {
        Some(Mode::Fixed(Strategy::Filtered))
    } else if name == "huffman"@ {
        Some(Mode::Fixed(Strategy::HuffmanOnly))
    } else if name == "rle"@ {
        Some(Mode::Fixed(Strategy::RLE))
    } else if name == "fixed"@ {
        Some(Mode::Fixed(Strategy::Fixed))
    } else {
        None
    }
}

/// Whether streaming is on, as a word says it.
pub open spec fn streaming_named(name: Seq<char>) -> Option<bool> {
    if name == "yes"@ {
        Some(true)
    } else if name == "no"@ {
        Some(false)
    } else {
        None
    }
}

/// Whether a character is a decimal digit.
pub open spec fn is_digit(c: char) -> bool {
    '0' <= c <= '9'
}

/// Whether every character is a decimal digit.
pub open spec fn all_digits(text: Seq<char>) -> bool {
    forall|i: int| 0 <= i < text.len() ==> is_digit(#[trigger] text[i])
}

/// The number that decimal digits spell.
pub open spec fn decimal_value(digits: Seq<char>) -> int
    decreases digits.len(),
{
    if digits.len() == 0 {
        0
    } else {
        decimal_value(digits.drop_last()) * 10 + (digits.last() as int - '0' as int)
    }
}

/// A text without the plus sign that may lead it.
pub open spec fn unsigned_part(text: Seq<char>) -> Seq<char> {
    if text.len() > 0 && text[0] == '+' {
        text.skip(1)
    } else {
        text
    }
}

/// The count that a text spells: decimal digits, at least one, that may
/// follow a plus sign and give a number within reach of this machine.
pub open spec fn count_named(text: Seq<char>) -> Option<usize> {
    let digits = unsigned_part(text);
    if digits.len() > 0 && all_digits(digits) && decimal_value(digits) <= usize::MAX {
        Some(decimal_value(digits) as usize)
    } else {
        None
    }
}

/// The number that digits spell is no less than the number that the first
/// of them spell, and never negative.
pub proof fn lemma_decimal_grows(digits: Seq<char>, k: int)
    requires
        all_digits(digits),
        0 <= k <= digits.len(),
    ensures
        0 <= decimal_value(digits.take(k)) <= decimal_value(digits),
    decreases digits.len(),
{
    if k == digits.len() {
        assert(digits.take(k) =~= digits);
        if digits.len() > 0 {
            lemma_decimal_grows(digits.drop_last(), k - 1);
            assert(is_digit(digits[digits.len() - 1]));
        }
    } else {
        let shorter = digits.drop_last();
        assert(all_digits(shorter)) by {
            assert forall|i: int| 0 <= i < shorter.len() implies is_digit(
                #[trigger] shorter[i],
            ) by {
                assert(is_digit(digits[i]));
            }
        }
        lemma_decimal_grows(shorter, k);
        assert(shorter.take(k) =~= digits.take(k));
        assert(is_digit(digits[digits.len() - 1]));
    }
}

/// Reads a filter mode from its name: `adaptive`, or one of the filters
/// `none`, `up`, `sub`, `average`, `paeth`.
pub fn parse_filter_mode(name: &str) -> (r: Result<Mode<Filter>, Error>)
    ensures
        filter_mode_named(name@) is Some ==> r is Ok && r->Ok_0 == filter_mode_named(
            name@,
        )->Some_0,
        filter_mode_named(name@) is None ==> r is Err && r->Err_0.has(
            ErrorKind::Other,
            "Unsupported filter type",
        ),
{
    if same_text(name, "adaptive") {
        Ok(Mode::Adaptive)
    } else if same_text(name, "none") {
        Ok(Mode::Fixed(Filter::NoFilter))
    } else if same_text(name, "up") {
        Ok(Mode::Fixed(Filter::Up))
    } else if same_text(name, "sub") {
        Ok(Mode::Fixed(Filter::Sub))
    } else if same_text(name, "average") {
        Ok(Mode::Fixed(Filter::Average))
    } else if same_text(name, "paeth") {
        Ok(Mode::Fixed(Filter::Paeth))
    } else {
        Err(err("Unsupported filter type"))
    }
}

/// Reads a compression level from its name: `default`, `1` or `9`.
pub fn parse_level(name: &str) -> (r: Result<CompressionLevel, Error>)
    ensures
        level_named(name@) is Some ==> r is Ok && r->Ok_0 == level_named(name@)->Some_0,
        level_named(name@) is None ==> r is Err && r->Err_0.has(
            ErrorKind::Other,
            "Unsupported compression level (try default, 1, or 9)",
        ),
{
    if same_text(name, "default") {
        Ok(CompressionLevel::Default)
    } else if same_text(name, "1") {
        Ok(CompressionLevel::Fast)
    } else if same_text(name, "9") {
        Ok(CompressionLevel::High)
    } else {
        Err(err("Unsupported compression level (try default, 1, or 9)"))
    }
}

/// Reads a strategy mode from its name: `auto`, or one of the strategies
/// `default`, `filtered`, `huffman`, `rle`, `fixed`.
pub fn parse_strategy_mode(name: &str) -> (r: Result<Mode<Strategy>, Error>)
    ensures
        strategy_mode_named(name@) is Some ==> r is Ok && r->Ok_0 == strategy_mode_named(
            name@,
        )->Some_0,
        strategy_mode_named(name@) is None ==> r is Err && r->Err_0.has(
            ErrorKind::Other,
            "Invalid compression strategy mode",
        ),
{
    if same_text(name, "auto") {
        Ok(Mode::Adaptive)
    } else if same_text(name, "default") {
        Ok(Mode::Fixed(Strategy::Default))
    } else if same_text(name, "filtered") {
        Ok(Mode::Fixed(Strategy::Filtered))
    } else if same_text(name, "huffman") {
        Ok(Mode::Fixed(Strategy::HuffmanOnly))
    } else if same_text(name, "rle") {
        Ok(Mode::Fixed(Strategy::RLE))
    } else if same_text(name, "fixed") {
        Ok(Mode::Fixed(Strategy::Fixed))
    } else {
        Err(err("Invalid compression strategy mode"))
    }
}

/// Reads whether to stream: `yes` or `no`.
pub fn parse_streaming(name: &str) -> (r: Result<bool, Error>)
    ensures
        streaming_named(name@) is Some ==> r is Ok && r->Ok_0 == streaming_named(name@)->Some_0,
        streaming_named(name@) is None ==> r is Err && r->Err_0.has(
            ErrorKind::Other,
            "Invalid streaming mode, try yes or no.",
        ),
{
    if same_text(name, "yes") {
        Ok(true)
    } else if same_text(name, "no") {
        Ok(false)
    } else {
        Err(err("Invalid streaming mode, try yes or no."))
    }
}

/// Reads a count: decimal digits, which a plus sign may lead. `None` for
/// anything else, and for a number that this machine cannot hold.
pub fn parse_count(text: &str) -> (r: Option<usize>)
    ensures
        r == count_named(text@),
{
    let ghost digits = unsigned_part(text@);
    if !text.is_ascii() {
        proof {
            let i = choose|i: int|
                0 <= i < text@.len() && !('\0' <= #[trigger] text@[i] <= '\u{7f}');
            if text@[0] == '+' {
                assert(i >= 1);
                assert(digits[i - 1] == text@[i]);
                assert(!is_digit(digits[i - 1]));
            } else {
                assert(!is_digit(digits[i]));
            }
        }
        return None;
    }
    let bytes: &[u8] = text.as_bytes();
    proof {
        is_ascii_spec_bytes(text);
    }
    let n: usize = bytes.len();
    let start: usize = if n > 0 && bytes[0] == 43u8 {
        1
    } else {
        0
    };
    assert(digits =~= text@.skip(start as int));
    if start == n {
        return None;
    }
    let mut value: usize = 0;
    let mut i: usize = start;
    assert(digits.take(0) =~= Seq::<char>::empty());
    while i < n
        invariant
            start <= i <= n,
            n == text@.len(),
            n == bytes@.len(),
            digits == text@.skip(start as int),
            digits == unsigned_part(text@),
            forall|k: int| 0 <= k < n ==> bytes@[k] == #[trigger] text@[k] as u8,
            forall|k: int| 0 <= k < n ==> '\0' <= #[trigger] text@[k] <= '\u{7f}',
            all_digits(digits.take(i - start)),
            value == decimal_value(digits.take(i - start)),
        decreases n - i,
    {
        let b: u8 = bytes[i];
        let ghost c = text@[i as int];
        assert(c == digits[i - start]);
        assert(b == c as u8);
        if b < 48u8 || b > 57u8 {
            assert(!is_digit(digits[i - start]));
            return None;
        }
        assert(is_digit(c));
        let d: usize = (b - 48u8) as usize;
        let ghost longer = digits.take(i - start + 1);
        proof {
            assert(longer.drop_last() =~= digits.take(i - start));
            assert(longer.last() == c);
            assert(all_digits(longer)) by {
                assert forall|k: int| 0 <= k < longer.len() implies is_digit(
                    #[trigger] longer[k],
                ) by {
                    if k < i - start {
                        assert(is_digit(digits.take(i - start)[k]));
                    }
                }
            }
            assert(decimal_value(longer) == value * 10 + d);
        }
        if value > (usize::MAX - d) / 10 {
            proof {
                assert(value * 10 + d > usize::MAX);
                if all_digits(digits) {
                    lemma_decimal_grows(digits, i - start + 1);
                    assert(decimal_value(digits) >= decimal_value(longer));
                }
            }
            return None;
        }
        value = value * 10 + d;
        i += 1;
    }
    assert(digits.take(n - start) =~= digits);
    Some(value)
}

/// What the named options come to, or the class and the text of the
/// first failure: a word that names nothing is an error of the caller's,
/// and so is a chunk size that is no count; a chunk size of zero is
/// invalid input.
pub open spec fn settings_named(
    chunk_size: Option<&str>,
    filter: Option<&str>,
    level: Option<&str>,
    strategy: Option<&str>,
    streaming: Option<&str>,
) -> Result<Settings, (ErrorKind, &'static str)> {
    let fresh = Settings {
        chunk_size: crate::options::DEFAULT_CHUNK_SIZE,
        filter_mode: Mode::Adaptive,
        compression_level: CompressionLevel::Default,
        strategy_mode: Mode::Adaptive,
        streaming: false,
    };
    if chunk_size is Some && count_named(chunk_size->Some_0@) is None {
        Err((ErrorKind::Other, "Invalid chunk size"))
    } else if chunk_size is Some && count_named(chunk_size->Some_0@)->Some_0 == 0 {
        Err((ErrorKind::InvalidInput, "Chunk size must be at least 1 byte"))
    } else if filter is Some && filter_mode_named(filter->Some_0@) is None {
        Err((ErrorKind::Other, "Unsupported filter type"))
    } else if level is Some && level_named(level->Some_0@) is None {
        Err((ErrorKind::Other, "Unsupported compression level (try default, 1, or 9)"))
    } else if strategy is Some && strategy_mode_named(strategy->Some_0@) is None {
        Err((ErrorKind::Other, "Invalid compression strategy mode"))
    } else if streaming is Some && streaming_named(streaming->Some_0@) is None {
        Err((ErrorKind::Other, "Invalid streaming mode, try yes or no."))
    } else {
        Ok(
            Settings {
                chunk_size: if chunk_size is Some {
                    count_named(chunk_size->Some_0@)->Some_0
                } else {
                    fresh.chunk_size
                },
                filter_mode: if filter is Some {
                    filter_mode_named(filter->Some_0@)->Some_0
                } else {
                    fresh.filter_mode
                },
                compression_level: if level is Some {
                    level_named(level->Some_0@)->Some_0
                } else {
                    fresh.compression_level
                },
                strategy_mode: if strategy is Some {
                    strategy_mode_named(strategy->Some_0@)->Some_0
                } else {
                    fresh.strategy_mode
                },
                streaming: if streaming is Some {
                    streaming_named(streaming->Some_0@)->Some_0
                } else {
                    fresh.streaming
                },
            },
        )
    }
}

/// Makes the options that a command line asks for: fresh options on the
/// given thread pool, changed by each option that is named.
pub fn read_options<'a>(
    pool: &'a rayon::ThreadPool,
    chunk_size: Option<&str>,
    filter: Option<&str>,
    level: Option<&str>,
    strategy: Option<&str>,
    streaming: Option<&str>,
) -> (r: Result<Options<'a>, Error>)
    ensures
        settings_named(chunk_size, filter, level, strategy, streaming) is Ok ==> r is Ok
            && r->Ok_0@ == settings_named(chunk_size, filter, level, strategy, streaming)->Ok_0
            && r->Ok_0@.valid() && r->Ok_0.pool() == Some(pool),
        settings_named(chunk_size, filter, level, strategy, streaming) is Err ==> r is Err
            && r->Err_0.has(
            settings_named(chunk_size, filter, level, strategy, streaming)->Err_0.0,
            settings_named(chunk_size, filter, level, strategy, streaming)->Err_0.1,
        ),
{
    let mut options: Options<'a> = Options::new();
    let pooled = options.set_thread_pool(pool);
    match chunk_size {
        None => {},
        Some(text) => {
            match parse_count(text) {
                None => {
                    return Err(err("Invalid chunk size"));
                },
                Some(n) => {
                    match options.set_chunk_size(n) {
                        Ok(()) => {},
                        Err(e) => {
                            return Err(e);
                        },
                    }
                },
            }
        },
    }
    match filter {
        None => {},
        Some(name) => {
            match parse_filter_mode(name) {
                Ok(mode) => {
                    let set = options.set_filter_mode(mode);
                },
                Err(e) => {
                    return Err(e);
                },
            }
        },
    }
    match level {
        None => {},
        Some(name) => {
            match parse_level(name) {
                Ok(level) => {
                    let set = options.set_compression_level(level);
                },
                Err(e) => {
                    return Err(e);
                },
            }
        },
    }
    match strategy {
        None => {},
        Some(name) => {
            match parse_strategy_mode(name) {
                Ok(mode) => {
                    let set = options.set_strategy_mode(mode);
                },
                Err(e) => {
                    return Err(e);
                },
            }
        },
    }
    match streaming {
        None => {},
        Some(name) => {
            match parse_streaming(name) {
                Ok(on) => {
                    let set = options.set_streaming(on);
                },
                Err(e) => {
                    return Err(e);
                },
            }
        },
    }
    Ok(options)
}

} // verus!
