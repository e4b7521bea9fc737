//! Download planning, metadata and episode-link logic of a resumable,
//! chunked file downloader that also scrapes episode links.

pub mod text;
pub mod episodes;
pub mod urls;
pub mod meta;
pub mod chunks;
pub mod headers;
pub mod tuning;
pub mod html;
pub mod links;
pub mod nkiri;
