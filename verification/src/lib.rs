//! Progress tracking for chunked downloads and planning of safe archive
//! extraction: the decisions of a downloader and of an extractor, stated and
//! proved over plain values.

pub mod download;
pub mod extract;
pub mod sanitize;

pub use download::{download_events, start_download, Chunk, Download, DownloadError, Event, Progress};
pub use extract::{unzip_file, Entry, ExtractError, Plan, Step, Tree};
pub use sanitize::{sanitize_file_path, SafePath};
