//! A parallel PNG encoder.
//!
//! An image is cut into groups of rows. Each group is filtered and
//! deflated on its own, the results are joined in order into one zlib
//! stream, and the stream is framed as PNG chunks.
//!
//! The modules, leaves first: `error`; `checksum` (CRC-32, Adler-32);
//! `header` and `options` (what the caller says of the image and of the
//! encoding); `writer` (chunk framing); `filter` (row filters); `zlib`
//! (the deflate unit); `plan` (rows and row groups); `group` (the work on
//! one group, and its distribution over threads); `reassemble` (joining
//! the groups); `order` (why the order of their arrival does not
//! matter); `stream` (what the whole output is); `encoder` (the
//! operations in their order); `args` (options by name).

pub mod args;
pub mod checksum;
pub mod encoder;
pub mod error;
pub mod filter;
pub mod group;
pub mod header;
pub mod options;
pub mod order;
pub mod plan;
pub mod reassemble;
pub mod stream;
pub mod writer;
pub mod zlib;

pub use crate::encoder::{encode_image, Encoder, State};
pub use crate::error::{err, Error, ErrorKind};
pub use crate::header::{ColorType, CompressionMethod, FilterMethod, Header, InterlaceMethod};
pub use crate::options::{CompressionLevel, Filter, Mode, Options, Settings, Strategy};
pub use crate::writer::Writer;
