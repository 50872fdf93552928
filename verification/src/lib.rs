//! Verified core of a conversation-driven video editing toolkit: frame-rate
//! canonicalisation, transcript and caption text shaping, subtitle timestamps,
//! ffprobe/ffmpeg probe interpretation and filter-graph assembly.
pub mod edl;
pub mod fps;
pub mod grade;
pub mod json;
pub mod loudnorm;
pub mod media;
pub mod paths;
pub mod phrases;
pub mod render;
pub mod scribe;
pub mod subtitles;
pub mod text;
pub mod transcript;
