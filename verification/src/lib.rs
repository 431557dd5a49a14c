//! Time-synchronised lyrics: parsing of LRC-style lyric files, lookup of the
//! line that is current at a playback position, and the text helpers used to
//! match lyric files against the artist and title of a song.

pub mod text;
pub mod timestamp;
pub mod lyrics;
pub mod loader;
pub mod layout;
pub mod screen;
