use agent_transcription::order::{compare_bytes, Comparison};
use agent_transcription::{
    split_by_voice, transcribe, ActionType, DefaultMapper, EventToNote, Note, SessionEvent,
    SessionPlayer, SessionScore, TranscriptionStyle, INTENSITY_SCALE,
};

fn ev(timestamp: u64, agent: &str, action: ActionType, intensity: i64) -> SessionEvent {
    SessionEvent::new(timestamp, agent, action, intensity)
}

fn mixed_events() -> Vec<SessionEvent> {
    vec![
        ev(1200, "b", ActionType::Error, 300_000),
        ev(0, "a", ActionType::Message, 500_000),
        ev(700, "c", ActionType::ToolCall, 900_000),
        ev(700, "a", ActionType::Decision, 100_000),
        ev(300, "b", ActionType::Idle, 0),
        ev(700, "b", ActionType::Completion, 1_000_000),
    ]
}

#[test]
fn law_consecutive_ticks_equal_one_long_tick() {
    let score = transcribe(&mixed_events(), TranscriptionStyle::Literal, "s");
    let mut stepped = SessionPlayer::new(score.clone());
    let mut whole = SessionPlayer::new(score);
    let mut parts: Vec<Note> = stepped.tick(700);
    parts.extend(stepped.tick(300));
    parts.extend(stepped.tick(1));
    let all = whole.tick(1001);
    assert_eq!(parts, all);
    assert_eq!(all.len(), 5);
    assert_eq!(stepped.position_ms(), whole.position_ms());
}

#[test]
fn law_tick_window_is_half_open() {
    let score = transcribe(&mixed_events(), TranscriptionStyle::Literal, "s");
    let mut p = SessionPlayer::new(score);
    let first = p.tick(700);
    assert_eq!(first.iter().map(|n| n.offset_ms).collect::<Vec<_>>(), vec![0, 300]);
    assert_eq!(p.position_ms(), 700);
    let second = p.tick(1);
    assert_eq!(second.iter().map(|n| n.offset_ms).collect::<Vec<_>>(), vec![700, 700, 700]);
    p.reset();
    assert_eq!(p.position_ms(), 0);
}

#[test]
fn law_sort_is_stable_by_offset() {
    let score = transcribe(&mixed_events(), TranscriptionStyle::Literal, "s");
    let order: Vec<(u32, &str)> =
        score.notes.iter().map(|n| (n.offset_ms, n.voice.as_str())).collect();
    assert_eq!(order, vec![(0, "a"), (300, "b"), (700, "c"), (700, "a"), (700, "b"), (1200, "b")]);
}

#[test]
fn law_one_note_per_event_in_every_style() {
    let events = mixed_events();
    for style in [
        TranscriptionStyle::Literal,
        TranscriptionStyle::Abstract,
        TranscriptionStyle::Melodic { scale_intervals: vec![0, 3, 7] },
    ] {
        assert_eq!(transcribe(&events, style, "x").note_count(), events.len());
    }
}

#[test]
fn law_split_keeps_every_note_once() {
    let score = transcribe(&mixed_events(), TranscriptionStyle::Literal, "s");
    let split = split_by_voice(&score);
    assert_eq!(split.len(), 3);
    assert_eq!(split.len(), score.voices().len());
    let mut total = 0;
    for v in score.voices() {
        let sub = split.get(&v).unwrap();
        assert!(sub.notes.iter().all(|n| n.voice == v));
        assert_eq!(sub.voices(), vec![v.clone()]);
        assert_eq!(sub.title, format!("voice-{}", v));
        assert_eq!(sub.tempo_bpm, 120);
        total += sub.note_count();
    }
    assert_eq!(total, score.note_count());
    let b = split.get("b").unwrap();
    assert_eq!(b.notes.iter().map(|n| n.offset_ms).collect::<Vec<_>>(), vec![300, 700, 1200]);
    assert!(split.get("d").is_none());
}

#[test]
fn law_voices_sorted_by_bytes_without_repeats() {
    let events = vec![
        ev(0, "b", ActionType::Message, 0),
        ev(1, "é", ActionType::Message, 0),
        ev(2, "B", ActionType::Message, 0),
        ev(3, "b", ActionType::Message, 0),
        ev(4, "a", ActionType::Message, 0),
        ev(5, "ab", ActionType::Message, 0),
    ];
    let score = transcribe(&events, TranscriptionStyle::Literal, "v");
    assert_eq!(score.voices(), vec!["B", "a", "ab", "b", "é"]);
}

#[test]
fn law_duration_is_latest_note_end() {
    let score = transcribe(&mixed_events(), TranscriptionStyle::Literal, "s");
    // The note at 700 with full intensity lasts 2000 ms and ends at 2700.
    assert_eq!(score.duration_ms(), 2700);
    assert!(score.notes.iter().all(|n| n.offset_ms + n.duration_ms <= 2700));
    assert_eq!(SessionScore::new("e").duration_ms(), 0);
}

#[test]
fn literal_pitch_table() {
    let m = DefaultMapper::new(TranscriptionStyle::Literal);
    let expected = [
        (ActionType::Idle, 48),
        (ActionType::Message, 60),
        (ActionType::ToolCall, 64),
        (ActionType::Decision, 67),
        (ActionType::Error, 71),
        (ActionType::Completion, 72),
    ];
    for (action, pitch) in expected {
        assert_eq!(m.action_pitch_literal(&action), pitch);
        assert_eq!(m.map(&ev(0, "a", action, 500_000), "a").pitch, pitch);
    }
}

#[test]
fn melodic_index_steps_every_500ms_and_wraps() {
    let m = DefaultMapper::new(TranscriptionStyle::Melodic { scale_intervals: vec![0, 3, 5, 7, 10] });
    let pitches: Vec<u8> = [0u64, 499, 500, 1999, 2000, 2500, 4999]
        .iter()
        .map(|&t| m.map(&ev(t, "a", ActionType::Message, 0), "a").pitch)
        .collect();
    assert_eq!(pitches, vec![60, 60, 63, 67, 70, 60, 70]);
    assert_eq!(m.action_pitch_melodic(&ActionType::Idle, &[], 9), 60);
    assert_eq!(m.action_pitch_melodic(&ActionType::Idle, &[1, 2], 9), 62);
    let empty = DefaultMapper::new(TranscriptionStyle::Melodic { scale_intervals: vec![] });
    assert_eq!(empty.map(&ev(1234, "a", ActionType::Error, 0), "a").pitch, 60);
}

#[test]
fn abstract_pitch_band() {
    let m = DefaultMapper::new(TranscriptionStyle::Abstract);
    assert_eq!(m.map(&ev(0, "a", ActionType::Message, 500_000), "a").pitch, 60);
    assert_eq!(m.map(&ev(0, "a", ActionType::Error, 1_000_000), "a").pitch, 94);
    assert_eq!(m.map(&ev(0, "a", ActionType::Idle, 0), "a").pitch, 36);
    let e = ev(0, "a", ActionType::Completion, 999_999);
    assert_eq!(m.action_pitch_abstract(&e), 67 + 23);
}

#[test]
fn velocity_and_duration_formulas() {
    let m = DefaultMapper::new(TranscriptionStyle::Literal);
    let quiet = m.map(&ev(0, "a", ActionType::Message, 0), "a");
    assert_eq!(quiet.velocity, 1);
    assert_eq!(quiet.duration_ms, 100);
    let loud = m.map(&ev(0, "a", ActionType::Message, 1_000_000), "a");
    assert_eq!(loud.velocity, 127);
    assert_eq!(loud.duration_ms, 2000);
    let mid = m.map(&ev(0, "a", ActionType::Message, 800_000), "a");
    assert_eq!(mid.velocity, 101);
    assert_eq!(mid.duration_ms, 1620);
}

#[test]
fn intensity_above_one_saturates() {
    let m = DefaultMapper::new(TranscriptionStyle::Abstract);
    let e = SessionEvent {
        timestamp: 0,
        agent_id: "a".to_string(),
        action_type: ActionType::Message,
        intensity: 10 * INTENSITY_SCALE,
    };
    let n = m.map(&e, "a");
    assert_eq!(n.velocity, 127);
    assert_eq!(n.pitch, 48 + 240 % 25);
    assert_eq!(n.duration_ms, 100 + 19000);
}

#[test]
fn offset_is_the_timestamp() {
    let m = DefaultMapper::new(TranscriptionStyle::Literal);
    let n = m.map(&ev(u32::MAX as u64, "a", ActionType::Message, 0), "v");
    assert_eq!(n.offset_ms, u32::MAX);
    assert_eq!(n.voice, "v");
    let n = m.map(&ev(1234, "a", ActionType::Message, 0), "v");
    assert_eq!(n.offset_ms, 1234);
}

#[test]
fn law_event_order_does_not_matter() {
    let events = vec![
        ev(900, "b", ActionType::Error, 300_000),
        ev(0, "a", ActionType::Message, 500_000),
        ev(450, "c", ActionType::ToolCall, 900_000),
        ev(700, "a", ActionType::Decision, 100_000),
    ];
    let mut reversed = events.clone();
    reversed.reverse();
    let a = transcribe(&events, TranscriptionStyle::Abstract, "x");
    let b = transcribe(&reversed, TranscriptionStyle::Abstract, "x");
    assert_eq!(a.notes, b.notes);
}

#[test]
fn law_playback_finishes_after_ceiling_of_ticks() {
    let score = transcribe(&mixed_events(), TranscriptionStyle::Literal, "s");
    let duration = score.duration_ms();
    assert_eq!(duration, 2700);
    let mut p = SessionPlayer::new(score);
    let mut ticks = 0;
    while !p.is_finished() {
        p.tick(500);
        ticks += 1;
    }
    assert_eq!(ticks, (2700 + 499) / 500);
}

#[test]
fn custom_mapper_fields() {
    let m = DefaultMapper {
        style: TranscriptionStyle::Literal,
        base_pitch: 120,
        min_duration_ms: 50,
        max_duration_ms: 150,
    };
    let n = m.map(&ev(0, "a", ActionType::Completion, 500_000), "a");
    assert_eq!(n.pitch, 127); // 132 capped
    assert_eq!(n.duration_ms, 100);
}

#[test]
fn defaults_and_constructors() {
    assert_eq!(TranscriptionStyle::default(), TranscriptionStyle::Literal);
    let m = DefaultMapper::new(TranscriptionStyle::Abstract);
    assert_eq!((m.base_pitch, m.min_duration_ms, m.max_duration_ms), (60, 100, 2000));
    let s = SessionScore::new("t");
    assert_eq!((s.notes.len(), s.tempo_bpm, s.title.as_str()), (0, 120, "t"));
    let e = ev(7, "x", ActionType::Idle, 250_000);
    assert_eq!(e.intensity, 250_000);
}

#[test]
fn byte_comparison() {
    assert!(matches!(compare_bytes(b"ab", b"b"), Comparison::Less));
    assert!(matches!(compare_bytes(b"ab", b"a"), Comparison::Greater));
    assert!(matches!(compare_bytes(b"", b""), Comparison::Equal));
    assert!(matches!(compare_bytes(b"", b"a"), Comparison::Less));
}

#[test]
fn note_clone_is_equal() {
    let n = DefaultMapper::new(TranscriptionStyle::Literal).map(&ev(3, "a", ActionType::Error, 1), "q");
    assert_eq!(n.clone(), n);
}
