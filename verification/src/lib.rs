//! The rules of a meeting service: what it remembers of meetings, what it does with
//! the audio that comes in, when a part of a meeting is summarized, and how the
//! summaries make up the meeting's board.
//!
//! Every operation works on a [`store::Store`] and says of the whole store what it
//! is afterwards. What reads and writes the database, talks to providers and serves
//! clients stands outside.

pub mod text;
pub mod number;
pub mod json;
pub mod rows;
pub mod ids;
pub mod error;
pub mod store;
pub mod events;
pub mod settings;

pub mod summary;
pub mod board;
pub mod provider;

pub mod jobs;
pub mod queue;
pub mod round;
pub mod transcription;
pub mod windows;
pub mod rebuild;

pub mod meetings;
pub mod speakers;
pub mod uploads;
pub mod segments;
pub mod boards;
pub mod overview;

pub mod wav;
pub mod ingest;

pub mod soundness;
pub mod separation;
