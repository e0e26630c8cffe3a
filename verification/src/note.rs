use vstd::prelude::*;

verus! {

/// A single musical note in a score.
#[derive(Debug, PartialEq)]
pub struct Note {
    /// MIDI pitch 0–127.
    pub pitch: u8,
    /// Duration in milliseconds.
    pub duration_ms: u32,
    /// Velocity 0–127.
    pub velocity: u8,
    /// Offset in milliseconds from score start.
    pub offset_ms: u32,
    /// Which voice/track this note belongs to (one per agent).
    pub voice: String,
}

/// The mathematical value of a [`Note`]: its numbers and the characters of
/// its voice.
pub struct NoteView {
    pub pitch: u8,
    pub duration_ms: u32,
    pub velocity: u8,
    pub offset_ms: u32,
    pub voice: Seq<char>,
}

impl View for Note {
    type V = NoteView;

    open spec fn view(&self) -> NoteView {
        NoteView {
            pitch: self.pitch,
            duration_ms: self.duration_ms,
            velocity: self.velocity,
            offset_ms: self.offset_ms,
            voice: self.voice@,
        }
    }
}

impl Clone for Note {
    fn clone(&self) -> (res: Note)
        ensures
            res == *self,
    {
        Note {
            pitch: self.pitch,
            duration_ms: self.duration_ms,
            velocity: self.velocity,
            offset_ms: self.offset_ms,
            voice: self.voice.clone(),
        }
    }
}

/// The views of a sequence of notes.
pub open spec fn notes_view(notes: Seq<Note>) -> Seq<NoteView> {
    notes.map_values(|n: Note| n@)
}

/// The millisecond at which a note stops sounding.
pub open spec fn note_end(n: NoteView) -> int {
    n.offset_ms + n.duration_ms
}

} // verus!
