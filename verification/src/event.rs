use vstd::prelude::*;

verus! {

/// The number of units that stand for the full intensity `1.0`: intensities
/// are kept as fixed-point integers in millionths.
pub const INTENSITY_SCALE: u32 = 1_000_000;

/// The type of action an agent performed during a session.
#[derive(Debug, Clone, Copy, PartialEq, Eq, Hash, Structural)]
pub enum ActionType {
    /// Agent sent a message to a user or channel.
    Message,
    /// Agent invoked a tool (search, exec, read, etc.).
    ToolCall,
    /// Agent made a decision or chose a path.
    Decision,
    /// Agent was idle or waiting.
    Idle,
    /// Agent produced an error or failure.
    Error,
    /// Agent completed a sub-task.
    Completion,
}

/// A single event from an agent session.
#[derive(Debug, Clone, PartialEq)]
pub struct SessionEvent {
    /// Milliseconds since session start.
    pub timestamp: u64,
    /// Which agent produced this event.
    pub agent_id: String,
    /// What kind of action occurred.
    pub action_type: ActionType,
    /// Intensity in millionths: `0` is `0.0`, `INTENSITY_SCALE` is `1.0`.
    pub intensity: u32,
}

/// `value` clamped to `[0, INTENSITY_SCALE]`.
pub open spec fn clamp_intensity(value: int) -> int {
    if value < 0 {
        0
    } else if value > INTENSITY_SCALE {
        INTENSITY_SCALE as int
    } else {
        value
    }
}

impl SessionEvent {
    /// Builds an event; the intensity (in millionths) is clamped to
    /// `[0, INTENSITY_SCALE]`.
    pub fn new(timestamp: u64, agent_id: &str, action_type: ActionType, intensity: i64) -> (e:
        SessionEvent)
        ensures
            e.timestamp == timestamp,
            e.agent_id@ == agent_id@,
            e.action_type == action_type,
            e.intensity == clamp_intensity(intensity as int),
            intensity < 0 ==> e.intensity == 0,
            intensity > 1_000_000 ==> e.intensity == 1_000_000,
            0 <= intensity <= 1_000_000 ==> e.intensity == intensity,
    {
        let clamped: u32 = if intensity < 0 {
            0
        } else if intensity > INTENSITY_SCALE as i64 {
            INTENSITY_SCALE
        } else {
            intensity as u32
        };
        SessionEvent { timestamp, agent_id: agent_id.to_owned(), action_type, intensity: clamped }
    }
}

} // verus!
