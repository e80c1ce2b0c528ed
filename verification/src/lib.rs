//! A buffered reader with background pre-fetching and seek support.
//!
//! A [`SmartBuf`] and a [`BackgroundReader`] work as a pair, most often in two threads. The
//! background reader says what is to be done with a source, and sends what was read of it, buffer
//! by buffer, ahead of time. The `SmartBuf` hands the bytes out, sends the buffers back to be
//! filled again, and asks for another place in the source on a seek that leaves the buffer in
//! hand.
//!
//! The contracts speak of the views in [`buffer`], [`message`], [`reader`] and [`background`].
//! What each operation promises stands in [`promises`], what refills of buffers give in
//! [`refills`], and what the two halves keep to together in [`laws`].

pub mod background;
pub mod buffer;
pub mod channel;
pub mod laws;
pub mod message;
pub mod promises;
pub mod reader;
pub mod refills;

pub use crate::background::{Action, BackgroundReader, Event};
pub use crate::buffer::{Buffer, ReadOutcome, Refill};
pub use crate::channel::Polled;
pub use crate::message::{Command, Error, ErrorKind, SeekFrom};
pub use crate::reader::{SeekStart, SmartBuf};
