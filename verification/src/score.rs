use vstd::prelude::*;

use crate::note::{Note, NoteView, notes_view, note_end};
use crate::order::{Comparison, bytes_lt, compare_bytes, lemma_bytes_lt_transitive};
use vstd::utf8::{encode_utf8, encode_utf8_decode_utf8};

verus! {

/// A musical score produced from one or more agent sessions.
#[derive(Debug, Clone, PartialEq)]
pub struct SessionScore {
    pub notes: Vec<Note>,
    /// Tempo in beats per minute.
    pub tempo_bpm: u32,
    pub title: String,
}

/// The latest end of any note of `s`, `0` when `s` is empty.
pub open spec fn max_end(s: Seq<NoteView>) -> int
    decreases s.len(),
{
    if s.len() == 0 {
        0
    } else {
        let rest = max_end(s.drop_last());
        if note_end(s.last()) > rest {
            note_end(s.last())
        } else {
            rest
        }
    }
}

/// The duration of a score is the latest end of its notes: no note ends
/// after it, and some note ends exactly then unless the score is empty.
pub proof fn lemma_max_end_is_latest_end(s: Seq<NoteView>)
    ensures
        forall|i: int|
            0 <= i < s.len() ==> (#[trigger] s[i]).offset_ms + s[i].duration_ms <= max_end(s),
        s.len() == 0 ==> max_end(s) == 0,
        s.len() > 0 ==> exists|i: int|
            0 <= i < s.len() && (#[trigger] s[i]).offset_ms + s[i].duration_ms == max_end(s),
    decreases s.len(),
{
    if s.len() > 0 {
        let d = s.drop_last();
        lemma_max_end_is_latest_end(d);
        assert forall|i: int| 0 <= i < s.len() implies note_end(#[trigger] s[i]) <= max_end(s) by {
            if i < d.len() {
                assert(s[i] == d[i]);
            }
        }
        if note_end(s.last()) > max_end(d) || d.len() == 0 {
            assert(note_end(s[s.len() - 1]) == max_end(s));
        } else {
            let i = choose|i: int|
                0 <= i < d.len() && (#[trigger] d[i]).offset_ms + d[i].duration_ms == max_end(d);
            assert(s[i] == d[i]);
        }
    }
}

/// Every note of `s` ends within the range of a `u32`.
pub open spec fn ends_fit(s: Seq<NoteView>) -> bool {
    forall|i: int| 0 <= i < s.len() ==> note_end(#[trigger] s[i]) <= u32::MAX
}

/// The order of voice names: the byte order of their UTF-8 encodings, as
/// `String` orders them.
pub open spec fn voice_lt(a: Seq<char>, b: Seq<char>) -> bool {
    bytes_lt(encode_utf8(a), encode_utf8(b))
}

/// Each name of `v` comes before every later one: sorted, with no name twice.
pub open spec fn strictly_ascending(v: Seq<Seq<char>>) -> bool {
    forall|i: int, j: int| 0 <= i < j < v.len() ==> voice_lt(v[i], v[j])
}

/// The characters of each string.
pub open spec fn strings_view(v: Seq<String>) -> Seq<Seq<char>> {
    v.map_values(|s: String| s@)
}

/// The voice of each note, in order.
pub open spec fn voices_in(s: Seq<NoteView>) -> Seq<Seq<char>> {
    s.map_values(|n: NoteView| n.voice)
}

/// The voices of a sequence of notes are the voice of each note, in order.
pub proof fn lemma_voices_in(s: Seq<NoteView>)
    ensures
        voices_in(s).len() == s.len(),
        forall|i: int| 0 <= i < s.len() ==> #[trigger] voices_in(s)[i] == s[i].voice,
{
}

/// Where `voice` stands in the sorted list `sorted`: the number of names
/// before it, and whether the name at that place is `voice` itself.
fn voice_slot(sorted: &Vec<String>, voice: &str) -> (r: (usize, bool))
    requires
        strictly_ascending(strings_view(sorted@)),
    ensures
        r.0 <= sorted@.len(),
        forall|i: int| 0 <= i < r.0 ==> voice_lt(#[trigger] sorted@[i]@, voice@),
        r.1 ==> r.0 < sorted@.len() && sorted@[r.0 as int]@ == voice@,
        !r.1 && r.0 < sorted@.len() ==> voice_lt(voice@, sorted@[r.0 as int]@),
{
    let mut p: usize = 0;
    while p < sorted.len()
        invariant
            p <= sorted@.len(),
            forall|i: int| 0 <= i < p ==> voice_lt(#[trigger] sorted@[i]@, voice@),
        decreases sorted@.len() - p,
    {
        let c = compare_bytes(sorted[p].as_str().as_bytes(), voice.as_bytes());
        match c {
            Comparison::Less => {
                p = p + 1;
            },
            Comparison::Equal => {
                proof {
                    encode_utf8_decode_utf8(sorted@[p as int]@);
                    encode_utf8_decode_utf8(voice@);
                }
                return (p, true);
            },
            Comparison::Greater => {
                return (p, false);
            },
        }
    }
    (p, false)
}

impl SessionScore {
    /// An empty score at 120 beats per minute.
    pub fn new(title: &str) -> (score: Self)
        ensures
            score.notes@.len() == 0,
            score.tempo_bpm == 120,
            score.title@ == title@,
    {
        SessionScore { notes: Vec::new(), tempo_bpm: 120, title: title.to_owned() }
    }

    /// The end of the last note to stop sounding, `0` for an empty score.
    pub fn duration_ms(&self) -> (d: u32)
        requires
            ends_fit(notes_view(self.notes@)),
        ensures
            d == max_end(notes_view(self.notes@)),
    {
        let ghost s = notes_view(self.notes@);
        let mut best: u32 = 0;
        let mut i: usize = 0;
        while i < self.notes.len()
            invariant
                s == notes_view(self.notes@),
                ends_fit(s),
                0 <= i <= s.len(),
                best == max_end(s.take(i as int)),
            decreases s.len() - i,
        {
            assert(note_end(s[i as int]) <= u32::MAX);
            let end: u32 = self.notes[i].offset_ms + self.notes[i].duration_ms;
            assert(s.take(i + 1).drop_last() =~= s.take(i as int));
            if end > best {
                best = end;
            }
            i = i + 1;
        }
        assert(s.take(s.len() as int) =~= s);
        best
    }

    /// The distinct voices of the score, sorted.
    pub fn voices(&self) -> (v: Vec<String>)
        ensures
            strictly_ascending(strings_view(v@)),
            forall|x: Seq<char>|
                strings_view(v@).contains(x) <==> voices_in(notes_view(self.notes@)).contains(x),
    {
        let ghost all = voices_in(notes_view(self.notes@));
        let mut out: Vec<String> = Vec::new();
        for k in 0..self.notes.len()
            invariant
                all == voices_in(notes_view(self.notes@)),
                strictly_ascending(strings_view(out@)),
                forall|x: Seq<char>|
                    strings_view(out@).contains(x) <==> all.take(k as int).contains(x),
        {
            let voice = &self.notes[k].voice;
            let (p, found) = voice_slot(&out, voice.as_str());
            let ghost before = strings_view(out@);
            let ghost v = voice@;
            assert(all[k as int] == v);
            assert(all.take(k + 1) =~= all.take(k as int).push(v));
            if !found {
                let ghost old_out = out@;
                out.insert(p, voice.clone());
                let ghost after = strings_view(out@);
                assert(after =~= before.insert(p as int, v));
                assert forall|i: int, j: int| 0 <= i < j < after.len() implies voice_lt(
                    after[i],
                    after[j],
                ) by {
                    if j < p {
                    } else if j == p {
                        assert(voice_lt(old_out[i]@, v));
                    } else if i < p {
                        assert(voice_lt(before[i], before[j - 1]));
                    } else if i == p {
                        assert(voice_lt(v, old_out[p as int]@));
                        if j - 1 > p {
                            assert(voice_lt(before[p as int], before[j - 1]));
                            lemma_bytes_lt_transitive(
                                encode_utf8(v),
                                encode_utf8(before[p as int]),
                                encode_utf8(before[j - 1]),
                            );
                        }
                    } else {
                        assert(voice_lt(before[i - 1], before[j - 1]));
                    }
                }
                assert forall|x: Seq<char>| after.contains(x) <==> all.take(k + 1).contains(x) by {
                    if after.contains(x) {
                        let i = choose|i: int| 0 <= i < after.len() && after[i] == x;
                        if i < p {
                            assert(before[i] == x);
                            assert(before.contains(x));
                        } else if i > p {
                            assert(before[i - 1] == x);
                            assert(before.contains(x));
                        } else {
                            assert(all.take(k + 1)[k as int] == x);
                        }
                    }
                    if all.take(k + 1).contains(x) {
                        if x == v {
                            assert(after[p as int] == x);
                        } else {
                            let i = choose|i: int| 0 <= i < k + 1 && #[trigger] all.take(k + 1)[i] == x;
                            assert(all.take(k as int)[i] == x);
                            assert(all.take(k as int).contains(x));
                            assert(before.contains(x));
                            let i2 = choose|i2: int| 0 <= i2 < before.len() && before[i2] == x;
                            if i2 < p {
                                assert(after[i2] == x);
                            } else {
                                assert(after[i2 + 1] == x);
                            }
                        }
                    }
                }
            } else {
                assert(before[p as int] == v);
                assert forall|x: Seq<char>| before.contains(x) <==> all.take(k + 1).contains(x) by {
                    if before.contains(x) {
                        assert(all.take(k as int).contains(x));
                        let i = choose|i: int| 0 <= i < k && #[trigger] all.take(k as int)[i] == x;
                        assert(all.take(k + 1)[i] == x);
                    }
                    if all.take(k + 1).contains(x) {
                        if x != v {
                            let i = choose|i: int| 0 <= i < k + 1 && #[trigger] all.take(k + 1)[i] == x;
                            assert(all.take(k as int)[i] == x);
                            assert(all.take(k as int).contains(x));
                        }
                    }
                }
            }
        }
        assert(all.take(self.notes@.len() as int) =~= all);
        out
    }

    pub fn note_count(&self) -> (n: usize)
        ensures
            n == self.notes@.len(),
    {
        self.notes.len()
    }
}

} // verus!
