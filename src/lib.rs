//! A binary reader and writer in which one method per type does both directions.
pub mod archivable;
pub mod archive;
pub mod bytes;
pub mod constant_pool;
pub mod laws;
pub mod len_string;
pub mod len_vec;
pub mod reader;
pub mod result;
pub mod writer;

pub use archivable::{Archivable, CountWidth, Decoded};
pub use archive::{Archive, ArchiveInternal, ArchiveSeekable, ArchiveState, SeekFrom};
pub use constant_pool::{CpInfo, CpInfoView};
pub use len_string::LenStringUtf8;
pub use len_vec::LenVec;
pub use reader::ArchiveReader;
pub use result::{Error, IoErrorKind};
pub use writer::ArchiveWriter;
