//! Kist's archive core: the archive model, format detection, the reading of
//! ZIP archives, and the logic of browsing an opened archive.
pub mod archive;
pub mod browser;
pub mod laws;
pub mod paths;
pub mod session;
pub mod text;
mod zip_source;

pub use archive::{
    detect_format, open_archive, plan_open, ArchiveDocument, ArchiveEntry, ArchiveError,
    ArchiveFormat, ArchiveSummary, CompressionLevel, FileError,
};
pub use browser::{breadcrumb_trail, byte_unit, search_rows, unit_label, visible_rows, BrowserRow, Crumb};
pub use paths::{display_name, file_type, normalize_path, parent_path};
pub use session::KistApp;
