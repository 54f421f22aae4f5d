//! Verified core of a command-line file downloader: colour handling for the
//! progress bar and the decisions a download run makes.
pub mod text;
pub mod color;
pub mod outside;
pub mod download;
