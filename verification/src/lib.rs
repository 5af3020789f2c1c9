//! Verified core of an MP4 audio extractor and audio analyser.
//!
//! The library holds the decisions of the tool: how a path is checked and
//! where the output goes, which arguments the external encoder receives,
//! how a signal is cut into analysis frames, which frames form a voiced run,
//! and which recognised tokens become timed words.
pub mod frames;
pub mod vad;
pub mod text;
pub mod whisper;
pub mod paths;
pub mod commands;
pub mod pcm;
pub mod portable;
