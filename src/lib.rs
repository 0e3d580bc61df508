//! A compact columnar encoding of time-series rows into size-bounded chunks.
use vstd::prelude::*;

pub mod column;
pub mod chunk;
pub mod hypertable;

pub use column::{Column, ColumnType, DecodeError, Item, ItemV};
pub use chunk::{Chunk, EncodeError, LIMIT_ITEM_SIZE};
pub use hypertable::{AppendError, Hypertable};
