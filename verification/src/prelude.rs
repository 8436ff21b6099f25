//! What most users of the library need.

pub use crate::bertterm::BertTerm;
pub use crate::consts::ATOM_EXT;
pub use crate::consts::ATOM_UTF8_EXT;
pub use crate::consts::BERT_MAGIC_NUMBER;
pub use crate::consts::BINARY_EXT;
pub use crate::consts::DISK_LOG_CLOSED;
pub use crate::consts::DISK_LOG_MAGIC;
pub use crate::consts::DISK_LOG_OPENED;
pub use crate::consts::DISK_LOG_TERM_MAGIC;
pub use crate::consts::FLOAT_EXT;
pub use crate::consts::INTEGER_EXT;
pub use crate::consts::LARGE_BIG_EXT;
pub use crate::consts::LARGE_TUPLE_EXT;
pub use crate::consts::LIST_EXT;
pub use crate::consts::MAP_EXT;
pub use crate::consts::NEW_FLOAT_EXT;
pub use crate::consts::NIL_EXT;
pub use crate::consts::SMALL_ATOM_EXT;
pub use crate::consts::SMALL_ATOM_UTF8_EXT;
pub use crate::consts::SMALL_BIG_EXT;
pub use crate::consts::SMALL_INTEGER_EXT;
pub use crate::consts::SMALL_TUPLE_EXT;
pub use crate::consts::STRING_EXT;
pub use crate::consts::VERSION;
pub use crate::error::BertError;
pub use crate::error::Result;
