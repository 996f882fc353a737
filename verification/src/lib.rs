//! Parsing and writing of LRC lyrics: metadata tags, timed lines and plain
//! lines, with every rule of the format stated and proved.
pub mod error;
pub mod line;
pub mod lyrics;
pub mod metadata;
pub mod round_trip;
pub mod tags;
pub mod text;
pub mod timestamp;
pub mod tokenizer;

pub use error::{IDTagErrorKind, LyricsError};
pub use line::check_line;
pub use lyrics::Lyrics;
pub use metadata::Metadata;
pub use tags::id_tag::IDTag;
pub use tags::time_tag::TimeTag;
pub use timestamp::Timestamp;
