pub mod audio;
pub mod minutes;
pub mod text;
pub mod transcription;
pub mod whisper;
