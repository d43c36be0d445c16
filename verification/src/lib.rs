//! PNG decoding.
//!
//! [`Decoder`] is the low-level interface: it is handed the bytes of a file, in pieces of any size,
//! and reports what they decode to. [`Reader`] is the high-level interface: it hands out the rows
//! of an image. Neither does any input or output of its own.
//!
//! The modules [`model`] and [`reader_model`] say what the two do as functions on mathematical
//! values, which the contracts speak of; [`decoder_laws`], [`reader_laws`] and [`image_laws`] hold
//! what follows from that over several calls, and of whole images. [`crc_laws`], [`format_laws`]
//! and [`row_laws`] say what checks, chunks and rows stand for.
pub mod chunk;
pub mod crc;
pub mod crc_laws;
pub mod decoder;
pub mod decoder_laws;
pub mod error;
pub mod expand;
pub mod filter;
pub mod format_laws;
pub mod image_laws;
pub mod inflater;
pub mod model;
pub mod reader;
pub mod reader_laws;
pub mod reader_model;
pub mod row_laws;
pub mod traits;
pub mod types;
pub mod utils;

pub use crate::decoder::{Decoded, Decoder};
pub use crate::error::{DecodingError, ReadError, Unsupported};
pub use crate::reader::{Progress, Reader};
pub use crate::traits::{HasParameters, Parameter};
pub use crate::types::{ColorType, Info, Transformations};
