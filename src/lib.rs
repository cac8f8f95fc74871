//! Torrent metadata codec: a bounded bencode reader and writer, and the
//! typed `MetaInfo` / `Info` model built from it.
pub mod error;
pub mod reader;
pub mod value;
pub mod fields;
pub mod info;
pub mod meta_info;
pub mod encode;
pub mod laws;
pub mod export;
pub mod round_trip;

pub use error::{DecodeError, Field};
pub use encode::{encode, EncodeError};
pub use export::FileType;
pub use info::Info;
pub use meta_info::{open_torrent, MetaInfo};
pub use value::{decode_value, encode_value, Value, MAX_DEPTH};
