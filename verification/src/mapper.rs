use vstd::prelude::*;

use crate::event::{ActionType, SessionEvent, INTENSITY_SCALE};
use crate::note::{Note, NoteView};

verus! {

/// Style of transcription — how events map to musical parameters.
#[derive(Debug, Clone, PartialEq)]
pub enum TranscriptionStyle {
    /// Literal: action_type → fixed pitch, intensity → velocity, timestamp → offset.
    Literal,
    /// Melodic: pitches are chosen from a scale so consecutive events form a melody.
    Melodic { scale_intervals: Vec<u8> },
    /// Abstract: events are mapped to atmospheric textures, clusters, and dynamics.
    Abstract,
}

impl Default for TranscriptionStyle {
    fn default() -> (s: Self)
        ensures
            s == TranscriptionStyle::Literal,
    {
        TranscriptionStyle::Literal
    }
}

/// Maps events to musical notes.
pub trait EventToNote {
    /// The events this mapper can turn into a note.
    spec fn can_map(&self, event: SessionEvent) -> bool;

    /// The note that `event` becomes on `voice`.
    fn map(&self, event: &SessionEvent, voice: &str) -> (note: Note)
        requires
            self.can_map(*event),
    ;
}

/// Default mapper that respects the transcription style.
#[derive(Debug, Clone)]
pub struct DefaultMapper {
    pub style: TranscriptionStyle,
    /// Base MIDI pitch (C4 = 60).
    pub base_pitch: u8,
    /// Minimum note duration in ms.
    pub min_duration_ms: u32,
    /// Maximum note duration in ms.
    pub max_duration_ms: u32,
}

/// The interval above the base pitch that the literal style gives an action.
pub open spec fn literal_interval(action: ActionType) -> int {
    match action {
        ActionType::Message => 0,
        ActionType::ToolCall => 4,
        ActionType::Decision => 7,
        ActionType::Idle => -12,
        ActionType::Error => 11,
        ActionType::Completion => 12,
    }
}

/// The lowest pitch that the abstract style gives an action.
pub open spec fn abstract_base(action: ActionType) -> int {
    match action {
        ActionType::Message => 48,
        ActionType::ToolCall => 55,
        ActionType::Decision => 62,
        ActionType::Idle => 36,
        ActionType::Error => 70,
        ActionType::Completion => 67,
    }
}

/// `floor(intensity * factor)`, the intensity read as a fraction of one.
pub open spec fn intensity_times(intensity: u32, factor: int) -> int {
    (intensity * factor) / (INTENSITY_SCALE as int)
}

/// `min(a, b)`.
pub open spec fn min_int(a: int, b: int) -> int {
    if a <= b {
        a
    } else {
        b
    }
}

/// The spread the abstract style adds to the base pitch:
/// `floor(24 * intensity)`, saturated to a byte, modulo 25.
pub open spec fn abstract_spread(intensity: u32) -> int {
    min_int(intensity_times(intensity, 24), 255) % 25
}

/// The scale position that the melodic style picks for a timestamp:
/// one step every 500 ms, wrapping around the scale.
pub open spec fn melodic_index(timestamp: u64, scale_len: int) -> int {
    (((timestamp / 500) as usize) as int) % scale_len
}

/// The velocity of a note: `floor(127 * intensity)` capped at 127, and at
/// least 1.
pub open spec fn note_velocity(intensity: u32) -> int {
    let v = min_int(intensity_times(intensity, 127), 127);
    if v == 0 {
        1
    } else {
        v
    }
}

/// What the intensity adds to the minimum duration:
/// `floor(intensity * range)`, saturated to a `u32`.
pub open spec fn duration_offset(intensity: u32, range: int) -> int {
    min_int(intensity_times(intensity, range), u32::MAX as int)
}

/// The pitch a mapper computes for an event before it is capped at 127.
pub open spec fn raw_pitch(m: DefaultMapper, e: SessionEvent) -> int {
    match m.style {
        TranscriptionStyle::Literal => m.base_pitch + literal_interval(e.action_type),
        TranscriptionStyle::Melodic { scale_intervals } => {
            if scale_intervals@.len() == 0 {
                m.base_pitch as int
            } else {
                m.base_pitch + scale_intervals@[melodic_index(
                    e.timestamp,
                    scale_intervals@.len() as int,
                )]
            }
        },
        TranscriptionStyle::Abstract => abstract_base(e.action_type) + abstract_spread(
            e.intensity,
        ),
    }
}

/// The duration a mapper gives an event.
pub open spec fn note_duration(m: DefaultMapper, e: SessionEvent) -> int {
    m.min_duration_ms + duration_offset(e.intensity, m.max_duration_ms - m.min_duration_ms)
}

/// The events a mapper handles: the timestamp fits the `u32` offset of a
/// note, the raw pitch fits a byte, the duration range is not negative and
/// the duration fits a `u32`.
pub open spec fn mapper_accepts(m: DefaultMapper, e: SessionEvent) -> bool {
    &&& e.timestamp <= u32::MAX
    &&& 0 <= raw_pitch(m, e) <= 255
    &&& m.min_duration_ms <= m.max_duration_ms
    &&& note_duration(m, e) <= u32::MAX
}

/// The note a mapper makes of an event on a voice.
pub open spec fn mapped_note(m: DefaultMapper, e: SessionEvent, voice: Seq<char>) -> NoteView {
    NoteView {
        pitch: min_int(raw_pitch(m, e), 127) as u8,
        duration_ms: note_duration(m, e) as u32,
        velocity: note_velocity(e.intensity) as u8,
        offset_ms: e.timestamp as u32,
        voice,
    }
}

/// The mapper that `DefaultMapper::new` builds for a style.
pub open spec fn default_mapper(style: TranscriptionStyle) -> DefaultMapper {
    DefaultMapper { style, base_pitch: 60, min_duration_ms: 100, max_duration_ms: 2000 }
}

/// Every note a mapper makes is MIDI-compatible: its pitch is at most 127
/// and its velocity between 1 and 127.
pub proof fn lemma_mapped_note_is_midi(m: DefaultMapper, e: SessionEvent, voice: Seq<char>)
    requires
        mapper_accepts(m, e),
    ensures
        mapped_note(m, e, voice).pitch <= 127,
        1 <= mapped_note(m, e, voice).velocity <= 127,
{
    assert(0 <= intensity_times(e.intensity, 127)) by (nonlinear_arith)
        requires
            0 <= e.intensity,
    ;
}

/// With an intensity in `[0, 1]`, the duration lies between the mapper's
/// minimum and maximum duration, and is `min + floor(intensity * range)`.
pub proof fn lemma_duration_within_range(m: DefaultMapper, e: SessionEvent)
    requires
        m.min_duration_ms <= m.max_duration_ms,
        e.intensity <= INTENSITY_SCALE,
    ensures
        note_duration(m, e) == m.min_duration_ms + intensity_times(
            e.intensity,
            m.max_duration_ms - m.min_duration_ms,
        ),
        m.min_duration_ms <= note_duration(m, e) <= m.max_duration_ms,
{
    let range: int = m.max_duration_ms - m.min_duration_ms;
    let i: int = e.intensity as int;
    assert(0 <= i * range <= INTENSITY_SCALE * range) by (nonlinear_arith)
        requires
            0 <= i <= INTENSITY_SCALE,
            0 <= range,
    ;
    assert((INTENSITY_SCALE * range) / (INTENSITY_SCALE as int) == range) by (nonlinear_arith);
    assert(0 <= (i * range) / (INTENSITY_SCALE as int) <= (INTENSITY_SCALE * range) / (
    INTENSITY_SCALE as int)) by (nonlinear_arith)
        requires
            0 <= i * range <= INTENSITY_SCALE * range,
    ;
}

/// The abstract style puts each action in a band of 25 pitches above its
/// base: `base <= pitch <= base + 24`.
pub proof fn lemma_abstract_pitch_band(m: DefaultMapper, e: SessionEvent)
    requires
        m.style == TranscriptionStyle::Abstract,
    ensures
        abstract_base(e.action_type) <= raw_pitch(m, e) <= abstract_base(e.action_type) + 24,
        raw_pitch(m, e) <= 127,
{
    assert(0 <= intensity_times(e.intensity, 24)) by (nonlinear_arith)
        requires
            0 <= e.intensity,
    ;
}

/// The literal style, in numbers: Message at the base pitch, ToolCall a
/// major third (+4), Decision a fifth (+7), Idle an octave below (-12),
/// Error a major seventh (+11), Completion an octave above (+12); capped
/// at 127.
pub proof fn lemma_literal_pitch(m: DefaultMapper, e: SessionEvent, voice: Seq<char>)
    requires
        mapper_accepts(m, e),
        m.style is Literal,
    ensures
        ({
            let p = m.base_pitch + (match e.action_type {
                ActionType::Message => 0int,
                ActionType::ToolCall => 4int,
                ActionType::Decision => 7int,
                ActionType::Idle => -12int,
                ActionType::Error => 11int,
                ActionType::Completion => 12int,
            });
            mapped_note(m, e, voice).pitch == if p > 127 {
                127
            } else {
                p
            }
        }),
{
}

/// The melodic style, in numbers: the pitch is the base plus the scale
/// step `floor(timestamp / 500) mod |scale|` (the base alone for an empty
/// scale), capped at 127.
pub proof fn lemma_melodic_pitch(m: DefaultMapper, e: SessionEvent, voice: Seq<char>)
    requires
        mapper_accepts(m, e),
        m.style is Melodic,
    ensures
        ({
            let scale = m.style->scale_intervals@;
            let p = if scale.len() == 0 {
                m.base_pitch as int
            } else {
                m.base_pitch + scale[(e.timestamp / 500) as int % scale.len() as int]
            };
            mapped_note(m, e, voice).pitch == if p > 127 {
                127
            } else {
                p
            }
        }),
{
    let t = e.timestamp;
    assert(t / 500 <= u32::MAX);
    assert(((t / 500) as usize) as int == (t / 500) as int);
}

/// The abstract style, in numbers: a base per action (Message 48,
/// ToolCall 55, Decision 62, Idle 36, Error 70, Completion 67) plus
/// `floor(24 * intensity)` (saturated to a byte) modulo 25.
pub proof fn lemma_abstract_pitch(m: DefaultMapper, e: SessionEvent, voice: Seq<char>)
    requires
        mapper_accepts(m, e),
        m.style is Abstract,
    ensures
        ({
            let spread = e.intensity * 24 / 1_000_000;
            mapped_note(m, e, voice).pitch == (match e.action_type {
                ActionType::Message => 48int,
                ActionType::ToolCall => 55int,
                ActionType::Decision => 62int,
                ActionType::Idle => 36int,
                ActionType::Error => 70int,
                ActionType::Completion => 67int,
            }) + (if spread > 255 {
                255
            } else {
                spread
            }) % 25
        }),
        abstract_base(ActionType::Message) == 48,
        abstract_base(ActionType::ToolCall) == 55,
        abstract_base(ActionType::Decision) == 62,
        abstract_base(ActionType::Idle) == 36,
        abstract_base(ActionType::Error) == 70,
        abstract_base(ActionType::Completion) == 67,
{
    lemma_abstract_pitch_band(m, e);
}

/// Velocity, duration, offset and voice of a mapped note, in numbers:
/// velocity `floor(127 * intensity)` capped at 127 and at least 1;
/// duration `min + floor(intensity * (max - min))` saturated to a `u32`;
/// offset the timestamp; voice the one given.
pub proof fn lemma_mapped_note_numbers(m: DefaultMapper, e: SessionEvent, voice: Seq<char>)
    requires
        mapper_accepts(m, e),
    ensures
        ({
            let v = e.intensity * 127 / 1_000_000;
            mapped_note(m, e, voice).velocity == if v == 0 {
                1
            } else if v > 127 {
                127
            } else {
                v
            }
        }),
        ({
            let d = e.intensity * (m.max_duration_ms - m.min_duration_ms) / 1_000_000;
            mapped_note(m, e, voice).duration_ms == m.min_duration_ms + if d > u32::MAX {
                u32::MAX as int
            } else {
                d
            }
        }),
        mapped_note(m, e, voice).offset_ms == e.timestamp,
        mapped_note(m, e, voice).voice == voice,
{
    assert(0 <= e.intensity * 127) by (nonlinear_arith)
        requires
            0 <= e.intensity,
    ;
}

impl DefaultMapper {
    pub fn new(style: TranscriptionStyle) -> (m: Self)
        ensures
            m == default_mapper(style),
            m.style == style,
            m.base_pitch == 60,
            m.min_duration_ms == 100,
            m.max_duration_ms == 2000,
    {
        DefaultMapper { style, base_pitch: 60, min_duration_ms: 100, max_duration_ms: 2000 }
    }

    pub fn action_pitch_literal(&self, action: &ActionType) -> (p: u8)
        requires
            0 <= self.base_pitch + literal_interval(*action) <= 255,
        ensures
            p == self.base_pitch + literal_interval(*action),
    {
        match action {
            ActionType::Message => self.base_pitch,
            ActionType::ToolCall => self.base_pitch + 4,
            ActionType::Decision => self.base_pitch + 7,
            ActionType::Idle => self.base_pitch - 12,
            ActionType::Error => self.base_pitch + 11,
            ActionType::Completion => self.base_pitch + 12,
        }
    }

    pub fn action_pitch_melodic(&self, _action: &ActionType, scale: &[u8], idx: usize) -> (p: u8)
        requires
            scale@.len() > 0 ==> self.base_pitch + scale@[idx as int % scale@.len() as int] <= 255,
        ensures
            p == if scale@.len() == 0 {
                self.base_pitch as int
            } else {
                self.base_pitch + scale@[idx as int % scale@.len() as int]
            },
    {
        if scale.len() == 0 {
            return self.base_pitch;
        }
        let interval = scale[idx % scale.len()];
        self.base_pitch + interval
    }

    pub fn action_pitch_abstract(&self, event: &SessionEvent) -> (p: u8)
        ensures
            p == abstract_base(event.action_type) + abstract_spread(event.intensity),
    {
        let base: u8 = match &event.action_type {
            ActionType::Message => 48,
            ActionType::ToolCall => 55,
            ActionType::Decision => 62,
            ActionType::Idle => 36,
            ActionType::Error => 70,
            ActionType::Completion => 67,
        };
        let scaled: u64 = (event.intensity as u64) * 24 / (INTENSITY_SCALE as u64);
        let spread: u8 = if scaled > 255 {
            255
        } else {
            scaled as u8
        };
        base + spread % 25
    }
}

impl EventToNote for DefaultMapper {
    open spec fn can_map(&self, event: SessionEvent) -> bool {
        mapper_accepts(*self, event)
    }

    /// The note of `event` on `voice`: pitch from the style (capped at 127),
    /// velocity and duration from the intensity, offset from the timestamp.
    fn map(&self, event: &SessionEvent, voice: &str) -> (note: Note)
        ensures
            note@ == mapped_note(*self, *event, voice@),
            note.offset_ms == event.timestamp,
    {
        let pitch: u8 = match &self.style {
            TranscriptionStyle::Literal => self.action_pitch_literal(&event.action_type),
            TranscriptionStyle::Melodic { scale_intervals } => {
                let idx = (event.timestamp / 500) as usize;
                self.action_pitch_melodic(&event.action_type, scale_intervals.as_slice(), idx)
            },
            TranscriptionStyle::Abstract => self.action_pitch_abstract(event),
        };
        let scaled_velocity: u64 = (event.intensity as u64) * 127 / (INTENSITY_SCALE as u64);
        let velocity: u8 = if scaled_velocity > 127 {
            127
        } else {
            scaled_velocity as u8
        };
        let duration_range: u32 = self.max_duration_ms - self.min_duration_ms;
        let intensity: u64 = event.intensity as u64;
        let range: u64 = duration_range as u64;
        assert(intensity * range <= 0xffff_fffe_0000_0001) by (nonlinear_arith)
            requires
                intensity <= 0xffff_ffff,
                range <= 0xffff_ffff,
        ;
        let scaled_duration: u64 = intensity * range / (INTENSITY_SCALE as u64);
        let offset: u32 = if scaled_duration > 0xffff_ffff {
            0xffff_ffff
        } else {
            scaled_duration as u32
        };
        let duration: u32 = self.min_duration_ms + offset;
        let offset_ms: u32 = event.timestamp as u32;
        Note {
            pitch: if pitch > 127 {
                127
            } else {
                pitch
            },
            duration_ms: duration,
            velocity: if velocity == 0 {
                1
            } else {
                velocity
            },
            offset_ms,
            voice: voice.to_owned(),
        }
    }
}

} // verus!
