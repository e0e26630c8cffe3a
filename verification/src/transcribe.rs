use vstd::prelude::*;

use crate::event::SessionEvent;
use crate::mapper::{
    DefaultMapper, EventToNote, TranscriptionStyle, default_mapper, mapped_note, mapper_accepts,
};
use crate::note::{Note, NoteView, notes_view};
use crate::score::SessionScore;
use crate::sort::{
    lemma_sort_by_offset, sort_by_offset, sort_notes_by_offset, sorted_by_offset,
    stable_sort_witness,
};

verus! {

/// The notes a mapper makes of the events, each on its agent's voice, in
/// event order.
pub open spec fn mapped_events(m: DefaultMapper, events: Seq<SessionEvent>) -> Seq<NoteView> {
    events.map_values(|e: SessionEvent| mapped_note(m, e, e.agent_id@))
}

/// The notes of the score that `transcribe` makes of the events.
pub open spec fn transcribed_notes(events: Seq<SessionEvent>, style: TranscriptionStyle) -> Seq<
    NoteView,
> {
    sort_by_offset(mapped_events(default_mapper(style), events))
}

/// Every event can be mapped by the mapper of the style without overflow.
pub open spec fn style_accepts(style: TranscriptionStyle, events: Seq<SessionEvent>) -> bool {
    forall|i: int|
        0 <= i < events.len() ==> mapper_accepts(default_mapper(style), #[trigger] events[i])
}

/// Each note of a transcription is the note that the default mapper of
/// the style (base pitch 60, durations 100 to 2000 ms) makes of one event
/// on its agent's voice: the notes of the events, each as many times, put
/// in order of offset.
pub proof fn lemma_transcription_maps_each_event(
    events: Seq<SessionEvent>,
    style: TranscriptionStyle,
)
    ensures
        transcribed_notes(events, style).len() == events.len(),
        sorted_by_offset(transcribed_notes(events, style)),
        forall|k: int|
            0 <= k < events.len() ==> exists|i: int|
                0 <= i < events.len() && #[trigger] transcribed_notes(events, style)[k]
                    == mapped_note(
                    (DefaultMapper {
                        style,
                        base_pitch: 60,
                        min_duration_ms: 100,
                        max_duration_ms: 2000,
                    }),
                    events[i],
                    events[i].agent_id@,
                ),
        transcribed_notes(events, style).to_multiset() =~= events.map_values(
            |e: SessionEvent|
                mapped_note(
                    (DefaultMapper {
                        style,
                        base_pitch: 60,
                        min_duration_ms: 100,
                        max_duration_ms: 2000,
                    }),
                    e,
                    e.agent_id@,
                ),
        ).to_multiset(),
{
    let m = DefaultMapper { style, base_pitch: 60, min_duration_ms: 100, max_duration_ms: 2000 };
    let s = mapped_events(default_mapper(style), events);
    assert(default_mapper(style) == m);
    assert(s =~= events.map_values(|e: SessionEvent| mapped_note(m, e, e.agent_id@)));
    lemma_sort_by_offset(s);
    let perm = stable_sort_witness(s);
    let r = transcribed_notes(events, style);
    assert forall|k: int| 0 <= k < events.len() implies exists|i: int|
        0 <= i < events.len() && #[trigger] r[k] == mapped_note(m, events[i], events[i].agent_id@) by {
        let i = perm[k];
        assert(r[k] == s[i]);
    }
}

/// Whatever the style, a transcription has one note per event.
pub proof fn lemma_one_note_per_event(
    events: Seq<SessionEvent>,
    a: TranscriptionStyle,
    b: TranscriptionStyle,
)
    ensures
        transcribed_notes(events, a).len() == events.len(),
        transcribed_notes(events, a).len() == transcribed_notes(events, b).len(),
{
    lemma_sort_by_offset(mapped_events(default_mapper(a), events));
    lemma_sort_by_offset(mapped_events(default_mapper(b), events));
}

/// No two events share a timestamp.
pub open spec fn distinct_timestamps(events: Seq<SessionEvent>) -> bool {
    forall|i: int, j: int|
        0 <= i < j < events.len() ==> events[i].timestamp != events[j].timestamp
}

proof fn lemma_mapped_events_multiset(m: DefaultMapper, e1: Seq<SessionEvent>, e2: Seq<SessionEvent>)
    requires
        e1.to_multiset() =~= e2.to_multiset(),
    ensures
        mapped_events(m, e1).to_multiset() =~= mapped_events(m, e2).to_multiset(),
    decreases e1.len(),
{
    broadcast use vstd::seq_lib::group_to_multiset_ensures;

    if e1.len() == 0 {
        assert(e1.to_multiset().len() == e2.to_multiset().len());
        assert(e2.len() == 0);
        assert(mapped_events(m, e1) =~= mapped_events(m, e2));
    } else {
        let d = e1.drop_last();
        let x = e1.last();
        assert(d.push(x) =~= e1);
        assert(e1.to_multiset().count(x) > 0) by {
            assert(e1.contains(x)) by {
                assert(e1[e1.len() - 1] == x);
            }
        }
        assert(e2.contains(x));
        let i = choose|i: int| 0 <= i < e2.len() && e2[i] == x;
        let r = e2.remove(i);
        assert(r.to_multiset() =~= e2.to_multiset().remove(x));
        assert(d.to_multiset() =~= e1.to_multiset().remove(x));
        lemma_mapped_events_multiset(m, d, r);
        let f = mapped_note(m, x, x.agent_id@);
        assert(mapped_events(m, e1) =~= mapped_events(m, d).push(f));
        assert(mapped_events(m, r) =~= mapped_events(m, e2).remove(i));
        assert(mapped_events(m, e2)[i] == f);
        assert(mapped_events(m, e2).contains(f));
        assert(mapped_events(m, e2).to_multiset().count(f) > 0);
        assert(mapped_events(m, e2).to_multiset() =~= mapped_events(m, r).to_multiset().insert(f));
    }
}

proof fn lemma_sorted_distinct_unique(r1: Seq<NoteView>, r2: Seq<NoteView>)
    requires
        sorted_by_offset(r1),
        sorted_by_offset(r2),
        r1.to_multiset() =~= r2.to_multiset(),
        forall|i: int, j: int| 0 <= i < j < r1.len() ==> r1[i].offset_ms != r1[j].offset_ms,
    ensures
        r1 == r2,
    decreases r1.len(),
{
    broadcast use vstd::seq_lib::group_to_multiset_ensures;

    assert(r1.to_multiset().len() == r2.to_multiset().len());
    if r1.len() == 0 {
        assert(r2.len() == 0);
        assert(r1 =~= r2);
    } else {
        let n = r1.len() - 1;
        assert(r2.len() == r1.len()) by {
            assert(r1.to_multiset().len() == r2.to_multiset().len());
        }
        let x1 = r1.last();
        let x2 = r2.last();
        assert(r1.contains(x1)) by {
            assert(r1[n] == x1);
        }
        assert(r2.contains(x2)) by {
            assert(r2[n] == x2);
        }
        assert(r1.to_multiset().count(x2) > 0);
        assert(r2.to_multiset().count(x1) > 0);
        let i = choose|i: int| 0 <= i < r1.len() && r1[i] == x2;
        let j = choose|j: int| 0 <= j < r2.len() && r2[j] == x1;
        assert(x2.offset_ms <= x1.offset_ms) by {
            assert(r1[i].offset_ms <= r1[n].offset_ms);
        }
        assert(x1.offset_ms <= x2.offset_ms) by {
            assert(r2[j].offset_ms <= r2[n].offset_ms);
        }
        assert(i == n);
        let d1 = r1.drop_last();
        let d2 = r2.drop_last();
        assert(r1.remove(n) =~= d1);
        assert(r2.remove(n) =~= d2);
        assert(d1.to_multiset() =~= d2.to_multiset());
        assert(sorted_by_offset(d1));
        assert(sorted_by_offset(d2)) by {
            assert forall|a: int, b: int| 0 <= a <= b < d2.len() implies d2[a].offset_ms
                <= d2[b].offset_ms by {
                assert(d2[a] == r2[a] && d2[b] == r2[b]);
            }
        }
        lemma_sorted_distinct_unique(d1, d2);
        assert(r1 =~= r2) by {
            assert forall|k: int| 0 <= k < r1.len() implies r1[k] == r2[k] by {
                if k < n {
                    assert(r1[k] == d1[k] && r2[k] == d2[k]);
                }
            }
        }
    }
}

/// Transcription does not depend on the order in which the events come:
/// two orders of the same events give the same notes, each as many times,
/// and when no two events share a timestamp they give the same score.
pub proof fn lemma_transcribe_ignores_event_order(
    e1: Seq<SessionEvent>,
    e2: Seq<SessionEvent>,
    style: TranscriptionStyle,
)
    requires
        e1.to_multiset() =~= e2.to_multiset(),
    ensures
        transcribed_notes(e1, style).to_multiset() =~= transcribed_notes(e2, style).to_multiset(),
        style_accepts(style, e1) && distinct_timestamps(e1) ==> transcribed_notes(e1, style)
            == transcribed_notes(e2, style),
{
    let m = default_mapper(style);
    let s1 = mapped_events(m, e1);
    let s2 = mapped_events(m, e2);
    lemma_mapped_events_multiset(m, e1, e2);
    lemma_sort_by_offset(s1);
    lemma_sort_by_offset(s2);
    if style_accepts(style, e1) && distinct_timestamps(e1) {
        let r1 = sort_by_offset(s1);
        let perm = stable_sort_witness(s1);
        assert forall|i: int, j: int| 0 <= i < j < r1.len() implies r1[i].offset_ms
            != r1[j].offset_ms by {
            let a = perm[i];
            let b = perm[j];
            assert(r1[i] == s1[a] && r1[j] == s1[b]);
            assert(mapper_accepts(m, e1[a]) && mapper_accepts(m, e1[b]));
            if a < b {
                assert(e1[a].timestamp != e1[b].timestamp);
            } else {
                assert(e1[b].timestamp != e1[a].timestamp);
            }
        }
        lemma_sorted_distinct_unique(r1, sort_by_offset(s2));
    }
}

/// Transcribes a full session (list of events) into a score.
pub fn transcribe(events: &[SessionEvent], style: TranscriptionStyle, title: &str) -> (score:
    SessionScore)
    requires
        style_accepts(style, events@),
    ensures
        notes_view(score.notes@) == transcribed_notes(events@, style),
        score.notes@.len() == events@.len(),
        sorted_by_offset(notes_view(score.notes@)),
        notes_view(score.notes@).to_multiset() =~= mapped_events(
            default_mapper(style),
            events@,
        ).to_multiset(),
        score.tempo_bpm == 120,
        score.title@ == title@,
{
    let ghost m = default_mapper(style);
    let ghost mapped = mapped_events(m, events@);
    let mapper = DefaultMapper::new(style);
    let mut notes: Vec<Note> = Vec::new();
    for i in 0..events.len()
        invariant
            mapper == m,
            mapped == mapped_events(m, events@),
            m == default_mapper(style),
            style_accepts(style, events@),
            notes_view(notes@) == mapped.take(i as int),
    {
        let event = &events[i];
        assert(mapper.can_map(*event));
        let note = mapper.map(event, event.agent_id.as_str());
        assert(note@ == mapped[i as int]);
        let ghost before = notes@;
        notes.push(note);
        assert(notes_view(notes@) =~= notes_view(before).push(mapped[i as int]));
        assert(mapped.take(i + 1) =~= mapped.take(i as int).push(mapped[i as int]));
    }
    assert(mapped.take(events@.len() as int) =~= mapped);
    let mut score = SessionScore::new(title);
    score.notes = sort_notes_by_offset(notes);
    proof {
        lemma_sort_by_offset(mapped);
    }
    score
}

/// Transcribes events from multiple agents into a single polyphonic score,
/// one voice per agent.
pub fn transcribe_multi(events: &[SessionEvent], style: TranscriptionStyle, title: &str) -> (score:
    SessionScore)
    requires
        style_accepts(style, events@),
    ensures
        notes_view(score.notes@) == transcribed_notes(events@, style),
        score.tempo_bpm == 120,
        score.title@ == title@,
{
    transcribe(events, style, title)
}

} // verus!
