//! Transcribe agent sessions into playable musical scores: each session
//! event becomes a note, and a score can be replayed tick by tick.

pub mod event;
pub mod mapper;
pub mod note;
pub mod order;
pub mod player;
pub mod score;
pub mod sort;
pub mod split;
pub mod transcribe;

pub use event::{ActionType, SessionEvent, INTENSITY_SCALE};
pub use mapper::{DefaultMapper, EventToNote, TranscriptionStyle};
pub use note::Note;
pub use player::SessionPlayer;
pub use score::SessionScore;
pub use split::split_by_voice;
pub use transcribe::{transcribe, transcribe_multi};
