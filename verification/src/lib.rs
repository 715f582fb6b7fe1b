//! Leaderboards over the session logs of a photo safari: for each camera the
//! hundred best session averages, for each user the ten best session sums,
//! both over the last seven days.
//!
//! A day's log is reduced to a summary that is stored; the summaries of
//! seven days are merged into the result. The camera pipeline groups sorted
//! records and keeps a leaderboard for each camera. The user pipeline sums up
//! batches of rows, stores them as transducers, and reads them together in
//! key order, where a key is built so that the best sums of a user come
//! first.

pub mod camera_codec;
pub mod camera_extracting;
pub mod camera_laws;
pub mod camera_mapping;
pub mod camera_top;
pub mod configuration;
pub mod dates;
pub mod files;
pub mod fst_bridge;
pub mod key_bytes;
pub mod parsing;
pub mod record;
pub mod row_laws;
pub mod synthesis;
pub mod text;
pub mod user_batching;
pub mod user_day_laws;
pub mod user_finalizing;
pub mod user_laws;
pub mod user_pipeline;
pub mod user_sorting;
pub mod user_storing;
pub mod user_top;
pub mod user_week_laws;
pub mod writing;
