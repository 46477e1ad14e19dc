//! Text, timing and wire-format logic of a live meeting-transcription tool:
//! echo suppression between the microphone and system-audio tracks, caption
//! text clean-up, guarded LLM corrections, transcript line formatting and the
//! framing used to talk to the recognizer sidecars.

pub mod chars;
pub mod transcript;
pub mod edit;
pub mod words;
pub mod echo;
pub mod correction;
pub mod text;
pub mod decimal;
pub mod render;
pub mod frames;
pub mod segmenter;
pub mod speakers;
pub mod pipeline;
pub mod settings;
pub mod prompts;
pub mod meter;
