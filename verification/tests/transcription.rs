use agent_transcription::{
    split_by_voice, transcribe, transcribe_multi, ActionType, DefaultMapper, EventToNote,
    SessionEvent, SessionPlayer, SessionScore, TranscriptionStyle, INTENSITY_SCALE,
};

/// An intensity given as a fraction of one, in the library's millionths.
fn millionths(x: f64) -> i64 {
    (x * INTENSITY_SCALE as f64).round() as i64
}

fn sample_events() -> Vec<SessionEvent> {
    vec![
        SessionEvent::new(0, "agent-a", ActionType::Message, millionths(0.5)),
        SessionEvent::new(500, "agent-a", ActionType::ToolCall, millionths(0.8)),
        SessionEvent::new(1000, "agent-b", ActionType::Decision, millionths(0.6)),
        SessionEvent::new(1500, "agent-a", ActionType::Completion, millionths(1.0)),
        SessionEvent::new(2000, "agent-b", ActionType::Error, millionths(0.3)),
    ]
}

fn intensity_of(e: &SessionEvent) -> f64 {
    e.intensity as f64 / INTENSITY_SCALE as f64
}

#[test]
fn test_event_creation() {
    let e = SessionEvent::new(100, "test", ActionType::Message, millionths(1.5));
    assert_eq!(e.timestamp, 100);
    assert_eq!(e.agent_id, "test");
    assert_eq!(e.action_type, ActionType::Message);
    assert!((intensity_of(&e) - 1.0).abs() < f64::EPSILON); // clamped
}

#[test]
fn test_literal_mapping() {
    let mapper = DefaultMapper::new(TranscriptionStyle::Literal);
    let e = SessionEvent::new(0, "a", ActionType::Message, millionths(0.5));
    let note = mapper.map(&e, "a");
    assert_eq!(note.pitch, 60); // base_pitch for Message
    assert_eq!(note.velocity, 63); // ~0.5 * 127
    assert_eq!(note.voice, "a");
}

#[test]
fn test_melodic_mapping() {
    let mapper = DefaultMapper::new(TranscriptionStyle::Melodic {
        scale_intervals: vec![0, 2, 4, 5, 7, 9, 11], // major scale
    });
    let e = SessionEvent::new(0, "a", ActionType::Message, millionths(0.5));
    let note = mapper.map(&e, "a");
    // idx = 0/500 = 0 → interval[0] = 0 → pitch = 60
    assert_eq!(note.pitch, 60);

    let e2 = SessionEvent::new(1000, "a", ActionType::Message, millionths(0.5));
    let note2 = mapper.map(&e2, "a");
    // idx = 1000/500 = 2 → interval[2] = 4 → pitch = 64
    assert_eq!(note2.pitch, 64);
}

#[test]
fn test_abstract_mapping() {
    let mapper = DefaultMapper::new(TranscriptionStyle::Abstract);
    let e = SessionEvent::new(0, "a", ActionType::Message, millionths(0.5));
    let note = mapper.map(&e, "a");
    assert!(note.pitch >= 48); // base for Message is 48
    assert!(note.pitch <= 127);
}

#[test]
fn test_score_generation() {
    let events = sample_events();
    let score = transcribe(&events, TranscriptionStyle::Literal, "test-session");
    assert_eq!(score.note_count(), 5);
    assert_eq!(score.title, "test-session");
    // Notes should be sorted by offset
    for i in 1..score.notes.len() {
        assert!(score.notes[i].offset_ms >= score.notes[i - 1].offset_ms);
    }
}

#[test]
fn test_style_differences() {
    let events = sample_events();
    let literal = transcribe(&events, TranscriptionStyle::Literal, "literal");
    let melodic = transcribe(
        &events,
        TranscriptionStyle::Melodic {
            scale_intervals: vec![0, 3, 5, 7, 10], // minor pentatonic
        },
        "melodic",
    );
    let abstract_ = transcribe(&events, TranscriptionStyle::Abstract, "abstract");

    // All three should produce same number of notes but different pitches
    assert_eq!(literal.note_count(), melodic.note_count());
    assert_eq!(literal.note_count(), abstract_.note_count());

    let pitches_eq = literal.notes.iter().zip(melodic.notes.iter()).all(|(a, b)| a.pitch == b.pitch);
    assert!(!pitches_eq, "Literal and melodic should produce different pitches");
}

#[test]
fn test_multi_agent_transcription() {
    let events = sample_events();
    let score = transcribe_multi(&events, TranscriptionStyle::Literal, "multi");
    assert_eq!(score.voices(), vec!["agent-a", "agent-b"]);

    let split = split_by_voice(&score);
    assert_eq!(split.len(), 2);
    assert_eq!(split.get("agent-a").unwrap().note_count(), 3);
    assert_eq!(split.get("agent-b").unwrap().note_count(), 2);
}

#[test]
fn test_player_tick() {
    let events = sample_events();
    let score = transcribe(&events, TranscriptionStyle::Literal, "playback");
    let mut player = SessionPlayer::new(score);

    // Tick covers [position, position+dt)
    let t0 = player.tick(501); // [0, 501) → captures 0ms and 500ms
    assert_eq!(t0.len(), 2);
    assert!(!player.is_finished());

    let t1 = player.tick(1000); // [501, 1501) → captures 1000ms and 1500ms
    assert_eq!(t1.len(), 2);

    let t2 = player.tick(600); // [1501, 2101) → captures 2000ms
    assert_eq!(t2.len(), 1);
}

#[test]
fn test_player_finished_and_reset() {
    let events = vec![SessionEvent::new(0, "a", ActionType::Message, millionths(0.5))];
    let score = transcribe(&events, TranscriptionStyle::Literal, "short");
    let mut player = SessionPlayer::new(score);

    // Note duration ≈ 1050ms, so we need to tick past that
    player.tick(2000);
    assert!(player.is_finished());

    player.reset();
    assert_eq!(player.position_ms(), 0);
    assert!(!player.is_finished());
}

#[test]
fn test_score_duration() {
    let events = sample_events();
    let score = transcribe(&events, TranscriptionStyle::Literal, "dur");
    // Last event at 2000ms with some duration
    assert!(score.duration_ms() > 2000);
}

#[test]
fn test_empty_session() {
    let score = transcribe(&[], TranscriptionStyle::Literal, "empty");
    assert_eq!(score.note_count(), 0);
    assert_eq!(score.duration_ms(), 0);
    assert!(score.voices().is_empty());
}

#[test]
fn test_player_empty_score() {
    let score = SessionScore::new("empty");
    let mut player = SessionPlayer::new(score);
    let notes = player.tick(1000);
    assert!(notes.is_empty());
    assert!(player.is_finished());
}

#[test]
fn test_intensity_clamping() {
    let e = SessionEvent::new(0, "a", ActionType::Message, millionths(-5.0));
    assert!((intensity_of(&e) - 0.0).abs() < f64::EPSILON);

    let e2 = SessionEvent::new(0, "a", ActionType::Message, millionths(10.0));
    assert!((intensity_of(&e2) - 1.0).abs() < f64::EPSILON);
}

#[test]
fn test_all_action_types_mapped() {
    let mapper = DefaultMapper::new(TranscriptionStyle::Literal);
    let actions = [
        ActionType::Message,
        ActionType::ToolCall,
        ActionType::Decision,
        ActionType::Idle,
        ActionType::Error,
        ActionType::Completion,
    ];
    for action in &actions {
        let e = SessionEvent::new(0, "a", action.clone(), millionths(0.5));
        let note = mapper.map(&e, "a");
        assert!(note.pitch <= 127);
        assert!(note.velocity > 0);
    }
}
