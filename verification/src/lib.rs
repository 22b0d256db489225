//! The verified core of a video downloader: parsing tool output, throttling progress,
//! building the local and remote (Cloudflare R2) video libraries, and signing R2 requests.

pub mod comments;
pub mod local_files;
pub mod output;
pub mod parser;
pub mod paths;
pub mod r2;
pub mod sorting;
pub mod text;
