//! Verified core of a keyboard-driven media player and downloader: the
//! parsing of what `yt-dlp` prints, the choice of files it leaves behind, the
//! decisions of its retry and download loops, and the text the terminal
//! interface shows.
pub mod player;
pub mod playlist;
pub mod text;
pub mod ytdlp;
pub mod tui;
