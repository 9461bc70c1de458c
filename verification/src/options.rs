//! What the caller may choose: filters, compression, chunking, threads.

use vstd::prelude::*;
use crate::error::{invalid_input, Error, ErrorKind};

verus! {

/// A pool of worker threads; row groups are encoded on it.
#[verifier::external_type_specification]
#[verifier::external_body]
pub struct ExThreadPool(rayon::ThreadPool);

/// The chunk size target of fresh options, in bytes.
pub const DEFAULT_CHUNK_SIZE: usize = 200_000;

/// A row filter of PNG.
#[derive(Clone, Copy, Debug, PartialEq, Eq, Structural)]
pub enum Filter {
    NoFilter,
    Sub,
    Up,
    Average,
    Paeth,
}

/// How the deflate coder looks for matches and picks its block types.
#[derive(Clone, Copy, Debug, PartialEq, Eq, Structural)]
pub enum Strategy {
    Default,
    Filtered,
    HuffmanOnly,
    RLE,
    Fixed,
}

/// How hard the deflate coder tries.
#[derive(Clone, Copy, Debug, PartialEq, Eq, Structural)]
pub enum CompressionLevel {
    Fast,
    Default,
    High,
}

/// A fixed choice, or leave to choose from the data.
#[derive(Clone, Copy, Debug, PartialEq, Eq)]
pub enum Mode<T> {
    Adaptive,
    Fixed(T),
}

impl Filter {
    /// The filter-type byte that opens a row filtered this way, which is
    /// also the filter's rank when two filters do equally well.
    pub open spec fn code(self) -> u8 {
        match self {
            Filter::NoFilter => 0,
            Filter::Sub => 1,
            Filter::Up => 2,
            Filter::Average => 3,
            Filter::Paeth => 4,
        }
    }

    pub fn to_u8(self) -> (code: u8)
        ensures
            code == self.code(),
    {
        match self {
            Filter::NoFilter => 0,
            Filter::Sub => 1,
            Filter::Up => 2,
            Filter::Average => 3,
            Filter::Paeth => 4,
        }
    }
}

impl Strategy {
    /// The number by which deflate coders know this strategy.
    pub open spec fn code(self) -> u8 {
        match self {
            Strategy::Default => 0,
            Strategy::Filtered => 1,
            Strategy::HuffmanOnly => 2,
            Strategy::RLE => 3,
            Strategy::Fixed => 4,
        }
    }

    pub fn to_u8(self) -> (code: u8)
        ensures
            code == self.code(),
    {
        match self {
            Strategy::Default => 0,
            Strategy::Filtered => 1,
            Strategy::HuffmanOnly => 2,
            Strategy::RLE => 3,
            Strategy::Fixed => 4,
        }
    }
}

impl CompressionLevel {
    /// The level on the usual scale from 1 to 9.
    pub open spec fn number(self) -> u8 {
        match self {
            CompressionLevel::Fast => 1,
            CompressionLevel::Default => 6,
            CompressionLevel::High => 9,
        }
    }

    pub fn to_u8(self) -> (n: u8)
        ensures
            n == self.number(),
    {
        match self {
            CompressionLevel::Fast => 1,
            CompressionLevel::Default => 6,
            CompressionLevel::High => 9,
        }
    }
}

/// The choices that shape the output bytes.
#[derive(Clone, Copy, Debug)]
pub struct Settings {
    pub chunk_size: usize,
    pub filter_mode: Mode<Filter>,
    pub compression_level: CompressionLevel,
    pub strategy_mode: Mode<Strategy>,
    pub streaming: bool,
}

impl Settings {
    pub open spec fn valid(self) -> bool {
        self.chunk_size > 0
    }

    /// The strategy in force. Left to choose, the coder takes `Default` for
    /// rows that are never filtered and `Filtered` otherwise.
    pub open spec fn strategy(self) -> Strategy {
        match self.strategy_mode {
            Mode::Fixed(s) => s,
            Mode::Adaptive => match self.filter_mode {
                Mode::Fixed(Filter::NoFilter) => Strategy::Default,
                _ => Strategy::Filtered,
            },
        }
    }

    pub fn is_valid(&self) -> (ok: bool)
        ensures
            ok == self.valid(),
    {
        self.chunk_size > 0
    }

    pub fn effective_strategy(&self) -> (s: Strategy)
        ensures
            s == self.strategy(),
    {
        match self.strategy_mode {
            Mode::Fixed(s) => s,
            Mode::Adaptive => match self.filter_mode {
                Mode::Fixed(Filter::NoFilter) => Strategy::Default,
                _ => Strategy::Filtered,
            },
        }
    }
}

/// Encoder options: the settings, and the thread pool to work on.
pub struct Options<'a> {
    settings: Settings,
    thread_pool: Option<&'a rayon::ThreadPool>,
}

impl<'a> View for Options<'a> {
    type V = Settings;

    closed spec fn view(&self) -> Settings {
        self.settings
    }
}

impl<'a> Options<'a> {
    /// The thread pool that has been set, if one has.
    pub closed spec fn pool(&self) -> Option<&'a rayon::ThreadPool> {
        self.thread_pool
    }

    /// Whether a thread pool has been set.
    pub open spec fn has_thread_pool(&self) -> bool {
        self.pool() is Some
    }

    /// Fresh options: adaptive filter and strategy, default level, no
    /// streaming, no thread pool.
    pub fn new() -> (o: Options<'a>)
        ensures
            o@.valid(),
            o@.chunk_size == DEFAULT_CHUNK_SIZE,
            o@.filter_mode == Mode::<Filter>::Adaptive,
            o@.compression_level == CompressionLevel::Default,
            o@.strategy_mode == Mode::<Strategy>::Adaptive,
            o@.streaming == false,
            !o.has_thread_pool(),
    {
        Options {
            settings: Settings {
                chunk_size: DEFAULT_CHUNK_SIZE,
                filter_mode: Mode::Adaptive,
                compression_level: CompressionLevel::Default,
                strategy_mode: Mode::Adaptive,
                streaming: false,
            },
            thread_pool: None,
        }
    }

    /// Row groups will be encoded on `thread_pool`.
    pub fn set_thread_pool(&mut self, thread_pool: &'a rayon::ThreadPool) -> (r: Result<
        (),
        Error,
    >)
        ensures
            r is Ok,
            final(self)@ == old(self)@,
            final(self).pool() == Some(thread_pool),
    {
        self.thread_pool = Some(thread_pool);
        Ok(())
    }

    /// Sets the target size in bytes of a row group and, when streaming, of
    /// an image-data chunk. Zero is refused.
    pub fn set_chunk_size(&mut self, chunk_size: usize) -> (r: Result<(), Error>)
        ensures
            chunk_size > 0 ==> r is Ok && final(self)@ == (Settings { chunk_size, ..old(self)@ })
                && final(self).pool() == old(self).pool(),
            chunk_size == 0 ==> r is Err && r->Err_0.has(
                ErrorKind::InvalidInput,
                "Chunk size must be at least 1 byte",
            ) && *final(self) == *old(self),
    {
        if chunk_size == 0 {
            return Err(invalid_input("Chunk size must be at least 1 byte"));
        }
        self.settings.chunk_size = chunk_size;
        Ok(())
    }

    pub fn set_filter_mode(&mut self, filter_mode: Mode<Filter>) -> (r: Result<(), Error>)
        ensures
            r is Ok,
            final(self)@ == (Settings { filter_mode, ..old(self)@ }),
            final(self).pool() == old(self).pool(),
    {
        self.settings.filter_mode = filter_mode;
        Ok(())
    }

    pub fn set_compression_level(&mut self, compression_level: CompressionLevel) -> (r: Result<
        (),
        Error,
    >)
        ensures
            r is Ok,
            final(self)@ == (Settings { compression_level, ..old(self)@ }),
            final(self).pool() == old(self).pool(),
    {
        self.settings.compression_level = compression_level;
        Ok(())
    }

    pub fn set_strategy_mode(&mut self, strategy_mode: Mode<Strategy>) -> (r: Result<(), Error>)
        ensures
            r is Ok,
            final(self)@ == (Settings { strategy_mode, ..old(self)@ }),
            final(self).pool() == old(self).pool(),
    {
        self.settings.strategy_mode = strategy_mode;
        Ok(())
    }

    pub fn set_streaming(&mut self, streaming: bool) -> (r: Result<(), Error>)
        ensures
            r is Ok,
            final(self)@ == (Settings { streaming, ..old(self)@ }),
            final(self).pool() == old(self).pool(),
    {
        self.settings.streaming = streaming;
        Ok(())
    }

    pub fn settings(&self) -> (s: Settings)
        ensures
            s == self@,
    {
        self.settings
    }

    pub fn thread_pool(&self) -> (p: Option<&'a rayon::ThreadPool>)
        ensures
            p == self.pool(),
    {
        self.thread_pool
    }
}

} // verus!
