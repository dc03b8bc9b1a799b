//! Byte streams whose optional capabilities are decided at run time.
//!
//! A [`Reader`] or [`Writer`] owns a stream and always offers its reading or
//! writing side. Seeking, buffered reading and telling its type are offered
//! only after they have been declared on the handle, at a place where the
//! stream's type is known to have them. A handle can be lent out as, or turned
//! into, a form that no longer names the stream's type and still offers
//! everything that had been declared.
//!
//! The streams themselves are described by the traits [`Read`], [`BufRead`],
//! [`Seek`] and [`Write`]. A source is modelled by the [`Content`] that it has
//! yet to deliver, a sink by the room it has left and by how its state changes
//! with the bytes it takes.
//!
//! - [`stream`]: the four traits, with the operations that they provide on top
//!   of reading and writing once.
//! - [`step`]: what those operations decide after each call on the stream.
//! - [`content`], [`error`]: what a source holds, and how an operation fails.
//! - [`slices`], [`cursor`], [`adapters`], [`allow`], [`borrowed`]: the
//!   streams that the library brings along.
//! - [`collect`]: reading to the end or up to a byte.
//! - [`anchor`]: descriptors of capabilities and the accessors made from them.
//! - [`reader`], [`writer`]: the handles.
pub mod adapters;
pub mod allow;
pub mod borrowed;
pub mod anchor;
pub mod collect;
pub mod content;
pub mod cursor;
pub mod error;
pub mod reader;
pub mod slices;
pub mod step;
pub mod stream;
pub mod writer;

pub use adapters::stack_copy as copy;
pub use adapters::{empty, repeat, sink, stack_copy, Empty, Repeat, Sink, Take};
pub use allow::{AllowStd, NotIo};
pub use content::Content;
pub use cursor::{Bytes, Cursor};
pub use error::{Error, ErrorKind};
pub use reader::Reader;
pub use stream::{BufRead, Read, Seek, SeekFrom, Write};
pub use writer::Writer;
