//! Nonblocking single-writer, multiple-reader circular buffers for sharing data
//! across threads and processes (with possible misses by readers).
//!
//! [`CBuf<T, SIZE>`] is the structure holding a circular buffer itself. A single
//! [`CBufWriter<T, SIZE>`] is used to add items to the (logical) end of a buffer, and
//! one or more [`CBufReader<T, SIZE>`]s are used to (fallibly) read items from it.
//! [`CBuf`]s start out conceptually empty; once `SIZE - 1` items have been added, the
//! buffer is full, and the later addition of an item will (conceptually) overwrite
//! the oldest item in the buffer.
//!
//! A [`CBufIndex<SIZE>`] can be used to address items inside a buffer (and one is used
//! internally by a [`CBufReader`] to implement sequential reads). A [`CBufIndex`] can
//! become stale if enough additional items are written to the buffer; this is detected
//! for as long as fewer than `usize::MAX + 1 - SIZE` items have been written since.
//!
//! * [`index`] is the arithmetic of indexes;
//! * [`protocol`] is how items get into and out of memory that is shared, step by step;
//! * [`buffer`] is circular buffers, their writer and their readers;
//! * [`search`] states what searching a buffer comes to;
//! * [`history`] states and proves what readers are given of what the writer has
//!   written, also where the two work at the same time;
//! * [`calls`] states what runs of calls are answered;
//! * [`index_laws`], [`buffer_laws`] and [`protocol_laws`] state what holds of the results
//!   of calls.
pub mod buffer;
pub mod calls;
pub mod history;
pub mod index;
pub mod protocol;
pub mod search;

pub mod index_laws;
pub mod buffer_laws;
pub mod protocol_laws;

pub use crate::buffer::{CBuf, CBufReader, CBufWriter, ReaderIterator, WriterIterator};
pub use crate::index::CBufIndex;
pub use crate::protocol::{
    CBufItem, Captures, FetchWithIndexResult, InvalidIndexError, ReadResult,
};
