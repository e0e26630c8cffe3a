use vstd::prelude::*;

use crate::note::{Note, NoteView, notes_view};
use crate::score::{SessionScore, strictly_ascending, strings_view, voices_in};
use vstd::hash_map::StringHashMap;
use vstd::string::StringExecFns;

verus! {

/// The notes sung by `voice`.
pub open spec fn sung_by(voice: Seq<char>) -> spec_fn(NoteView) -> bool {
    |n: NoteView| n.voice == voice
}

/// The notes of `s` sung by `voice`, in the order of `s`.
pub open spec fn notes_of_voice(s: Seq<NoteView>, voice: Seq<char>) -> Seq<NoteView> {
    s.filter(sung_by(voice))
}

/// The sub-score of one voice: its notes in score order, titled after the
/// voice.
pub open spec fn is_voice_score(sub: SessionScore, s: Seq<NoteView>, voice: Seq<char>) -> bool {
    &&& notes_view(sub.notes@) == notes_of_voice(s, voice)
    &&& sub.title@ == "voice-"@ + voice
    &&& sub.tempo_bpm == 120
}

/// The total number of notes of `s` sung by the voices of `names`.
pub open spec fn split_count(s: Seq<NoteView>, names: Seq<Seq<char>>) -> int
    decreases names.len(),
{
    if names.len() == 0 {
        0
    } else {
        split_count(s, names.drop_last()) + notes_of_voice(s, names.last()).len()
    }
}

/// How many times `v` occurs in `names`.
pub open spec fn occurrences(names: Seq<Seq<char>>, v: Seq<char>) -> int
    decreases names.len(),
{
    if names.len() == 0 {
        0
    } else {
        occurrences(names.drop_last(), v) + if names.last() == v {
            1int
        } else {
            0int
        }
    }
}

proof fn lemma_split_count_empty(names: Seq<Seq<char>>)
    ensures
        split_count(Seq::<NoteView>::empty(), names) == 0,
    decreases names.len(),
{
    reveal_with_fuel(Seq::filter, 1);
    if names.len() > 0 {
        lemma_split_count_empty(names.drop_last());
    }
}

proof fn lemma_split_count_push(s: Seq<NoteView>, n: NoteView, names: Seq<Seq<char>>)
    ensures
        split_count(s.push(n), names) == split_count(s, names) + occurrences(names, n.voice),
    decreases names.len(),
{
    if names.len() > 0 {
        lemma_split_count_push(s, n, names.drop_last());
        reveal_with_fuel(Seq::filter, 1);
        assert(s.push(n).drop_last() =~= s);
    }
}

proof fn lemma_occurs_once(names: Seq<Seq<char>>, v: Seq<char>)
    requires
        strictly_ascending(names),
        names.contains(v),
    ensures
        occurrences(names, v) == 1,
    decreases names.len(),
{
    let d = names.drop_last();
    assert(strictly_ascending(d)) by {
        assert forall|i: int, j: int| 0 <= i < j < d.len() implies crate::score::voice_lt(
            d[i],
            d[j],
        ) by {
            assert(d[i] == names[i] && d[j] == names[j]);
        }
    }
    if names.last() == v {
        assert(!d.contains(v)) by {
            if d.contains(v) {
                let i = choose|i: int| 0 <= i < d.len() && d[i] == v;
                assert(crate::score::voice_lt(names[i], names[names.len() - 1]));
                crate::order::lemma_bytes_lt_irreflexive(vstd::utf8::encode_utf8(v));
            }
        }
        lemma_occurs_none(d, v);
    } else {
        let i = choose|i: int| 0 <= i < names.len() && names[i] == v;
        assert(d[i] == v);
        lemma_occurs_once(d, v);
    }
}

proof fn lemma_occurs_none(names: Seq<Seq<char>>, v: Seq<char>)
    requires
        !names.contains(v),
    ensures
        occurrences(names, v) == 0,
    decreases names.len(),
{
    if names.len() > 0 {
        let d = names.drop_last();
        assert(!d.contains(v)) by {
            if d.contains(v) {
                let i = choose|i: int| 0 <= i < d.len() && d[i] == v;
                assert(names[i] == v);
            }
        }
        assert(names[names.len() - 1] != v);
        lemma_occurs_none(d, v);
    }
}

/// Splitting by voice loses and duplicates no note: over a sorted list of
/// distinct names that holds every voice of the score, the sub-scores
/// together hold as many notes as the score.
pub proof fn lemma_split_keeps_every_note(s: Seq<NoteView>, names: Seq<Seq<char>>)
    requires
        strictly_ascending(names),
        forall|i: int| 0 <= i < s.len() ==> names.contains(#[trigger] s[i].voice),
    ensures
        split_count(s, names) == s.len(),
    decreases s.len(),
{
    if s.len() == 0 {
        assert(s =~= Seq::<NoteView>::empty());
        lemma_split_count_empty(names);
    } else {
        let d = s.drop_last();
        let n = s.last();
        assert forall|i: int| 0 <= i < d.len() implies names.contains(#[trigger] d[i].voice) by {
            assert(d[i] == s[i]);
        }
        lemma_split_keeps_every_note(d, names);
        assert(d.push(n) =~= s);
        lemma_split_count_push(d, n, names);
        assert(names.contains(s[s.len() - 1].voice));
        lemma_occurs_once(names, n.voice);
    }
}

/// How many notes the sub-scores of `m` hold for the voices of `names`.
pub open spec fn sub_score_count(m: Map<Seq<char>, SessionScore>, names: Seq<Seq<char>>) -> int
    decreases names.len(),
{
    if names.len() == 0 {
        0
    } else {
        sub_score_count(m, names.drop_last()) + m[names.last()].notes@.len()
    }
}

proof fn lemma_sub_score_count(
    m: Map<Seq<char>, SessionScore>,
    s: Seq<NoteView>,
    names: Seq<Seq<char>>,
)
    requires
        forall|i: int| 0 <= i < names.len() ==> #[trigger] m.contains_key(names[i]),
        forall|x: Seq<char>| #[trigger] m.contains_key(x) ==> is_voice_score(m[x], s, x),
    ensures
        sub_score_count(m, names) == split_count(s, names),
    decreases names.len(),
{
    if names.len() > 0 {
        let d = names.drop_last();
        assert forall|i: int| 0 <= i < d.len() implies #[trigger] m.contains_key(d[i]) by {
            assert(d[i] == names[i]);
        }
        lemma_sub_score_count(m, s, d);
        assert(m.contains_key(names[names.len() - 1]));
        let sub = m[names.last()];
        assert(notes_view(sub.notes@).len() == sub.notes@.len());
    }
}

/// Splitting by voice partitions the score: given the sub-scores that
/// `split_by_voice` returns and the voices that `voices` returns, there is
/// one sub-score per voice, each holds at least one note and only notes of
/// its own voice, and together they hold as many notes as the score.
pub proof fn lemma_split_partitions(
    s: Seq<NoteView>,
    names: Seq<Seq<char>>,
    m: Map<Seq<char>, SessionScore>,
)
    requires
        strictly_ascending(names),
        forall|x: Seq<char>| names.contains(x) <==> voices_in(s).contains(x),
        forall|x: Seq<char>| m.contains_key(x) <==> voices_in(s).contains(x),
        forall|x: Seq<char>| #[trigger] m.contains_key(x) ==> is_voice_score(m[x], s, x),
    ensures
        m.dom().len() == names.len(),
        forall|x: Seq<char>|
            #[trigger] m.contains_key(x) ==> m[x].notes@.len() >= 1 && forall|i: int|
                0 <= i < m[x].notes@.len() ==> (#[trigger] m[x].notes@[i]).voice@ == x,
        sub_score_count(m, names) == s.len(),
{
    assert(names.no_duplicates()) by {
        assert forall|i: int, j: int| 0 <= i < names.len() && 0 <= j < names.len() && i != j
            implies names[i] != names[j] by {
            if i < j {
                assert(crate::score::voice_lt(names[i], names[j]));
            } else {
                assert(crate::score::voice_lt(names[j], names[i]));
            }
            crate::order::lemma_bytes_lt_irreflexive(vstd::utf8::encode_utf8(names[i]));
        }
    }
    names.unique_seq_to_set();
    assert(m.dom() =~= names.to_set());
    assert forall|x: Seq<char>| #[trigger] m.contains_key(x) implies m[x].notes@.len() >= 1
        && forall|i: int| 0 <= i < m[x].notes@.len() ==> (#[trigger] m[x].notes@[i]).voice@
        == x by {
        let k = choose|k: int| 0 <= k < voices_in(s).len() && voices_in(s)[k] == x;
        assert(s[k].voice == x);
        s.lemma_filter_contains(sung_by(x), k);
        let sub = m[x];
        assert forall|i: int| 0 <= i < sub.notes@.len() implies (#[trigger] sub.notes@[i]).voice@
            == x by {
            assert(notes_view(sub.notes@)[i] == sub.notes@[i]@);
            s.lemma_filter_pred(sung_by(x), i);
        }
    }
    assert forall|i: int| 0 <= i < s.len() implies names.contains(#[trigger] s[i].voice) by {
        assert(voices_in(s)[i] == s[i].voice);
    }
    lemma_split_keeps_every_note(s, names);
    assert forall|i: int| 0 <= i < names.len() implies #[trigger] m.contains_key(names[i]) by {
        assert(names.contains(names[i]));
    }
    lemma_sub_score_count(m, s, names);
}

proof fn lemma_no_voice_no_notes(s: Seq<NoteView>, v: Seq<char>)
    requires
        !voices_in(s).contains(v),
    ensures
        notes_of_voice(s, v) == Seq::<NoteView>::empty(),
{
    let f = notes_of_voice(s, v);
    if f.len() > 0 {
        s.lemma_filter_pred(sung_by(v), 0);
        assert(f.contains(f[0]));
        s.lemma_filter_contains_rev(sung_by(v), f[0]);
        let k = choose|k: int| 0 <= k < s.len() && s[k] == f[0];
        assert(voices_in(s)[k] == v);
    }
    assert(f =~= Seq::<NoteView>::empty());
}

proof fn lemma_push_contains<A>(a: Seq<A>, v: A, x: A)
    ensures
        a.push(v).contains(x) <==> (a.contains(x) || x == v),
{
    if a.contains(x) {
        let q = choose|q: int| 0 <= q < a.len() && a[q] == x;
        assert(a.push(v)[q] == x);
    }
    if x == v {
        assert(a.push(v)[a.len() as int] == x);
    }
    if a.push(v).contains(x) && x != v {
        let q = choose|q: int| 0 <= q < a.len() + 1 && a.push(v)[q] == x;
        assert(a[q] == x);
    }
}

/// A new, empty sub-score for `voice`.
fn voice_score_for(voice: &str) -> (sub: SessionScore)
    ensures
        sub.notes@.len() == 0,
        sub.title@ == "voice-"@ + voice@,
        sub.tempo_bpm == 120,
{
    let mut title = "voice-".to_owned();
    title.append(voice);
    SessionScore { notes: Vec::new(), tempo_bpm: 120, title }
}

/// Extract per-agent sub-scores from a multi-agent score: one sub-score
/// per voice, holding that voice's notes in score order.
pub fn split_by_voice(score: &SessionScore) -> (split: StringHashMap<SessionScore>)
    ensures
        forall|x: Seq<char>|
            split@.contains_key(x) <==> voices_in(notes_view(score.notes@)).contains(x),
        forall|x: Seq<char>|
            #[trigger] split@.contains_key(x) ==> is_voice_score(
                split@[x],
                notes_view(score.notes@),
                x,
            ),
{
    let ghost s = notes_view(score.notes@);
    // Voice of each sub-score, in order of first appearance, and the index
    // of each voice's sub-score.
    let mut names: Vec<String> = Vec::new();
    let mut groups: Vec<SessionScore> = Vec::new();
    let mut slot: StringHashMap<usize> = StringHashMap::new();
    assert(s.take(0) =~= Seq::<NoteView>::empty());
    for i in 0..score.notes.len()
        invariant
            s == notes_view(score.notes@),
            names@.len() == groups@.len(),
            forall|a: int, b: int| 0 <= a < b < names@.len() ==> names@[a]@ != names@[b]@,
            forall|x: Seq<char>|
                strings_view(names@).contains(x) <==> voices_in(s.take(i as int)).contains(x),
            forall|x: Seq<char>| slot@.contains_key(x) <==> strings_view(names@).contains(x),
            forall|g: int|
                0 <= g < names@.len() ==> slot@.contains_key(#[trigger] names@[g]@) && slot@[names@[g]@]
                    == g,
            forall|g: int|
                0 <= g < groups@.len() ==> is_voice_score(
                    #[trigger] groups@[g],
                    s.take(i as int),
                    names@[g]@,
                ),
    {
        let note = &score.notes[i];
        let ghost t = s.take(i as int);
        let ghost t2 = s.take(i + 1);
        let ghost v = note.voice@;
        assert(t2.drop_last() =~= t);
        assert(t2.last() == note@);
        assert(voices_in(t2) =~= voices_in(t).push(v));
        proof {
            reveal_with_fuel(Seq::filter, 1);
        }
        let ghost old_names = names@;
        let ghost old_groups = groups@;
        match slot.get(note.voice.as_str()) {
            Some(g_ref) => {
                let g: usize = *g_ref;
                assert(strings_view(names@).contains(v));
                let ghost k = choose|k: int| 0 <= k < names@.len() && strings_view(names@)[k] == v;
                assert(names@[k]@ == v);
                assert(k == g);
                let ghost before = groups@[g as int].notes@;
                groups[g].notes.push(note.clone());
                assert(notes_view(groups@[g as int].notes@) =~= notes_view(before).push(note@));
                assert forall|h: int| 0 <= h < groups@.len() implies is_voice_score(
                    #[trigger] groups@[h],
                    t2,
                    names@[h]@,
                ) by {
                    if h != g {
                        assert(groups@[h] == old_groups[h]);
                        assert(names@[h]@ != v);
                    }
                }
                assert forall|x: Seq<char>| strings_view(names@).contains(x) <==> voices_in(
                    t2,
                ).contains(x) by {
                    lemma_push_contains(voices_in(t), v, x);
                }
            },
            None => {
                assert(!strings_view(names@).contains(v));
                assert(!voices_in(t).contains(v));
                proof {
                    lemma_no_voice_no_notes(t, v);
                }
                let n = groups.len();
                slot.insert(note.voice.clone(), n);
                let mut sub = voice_score_for(note.voice.as_str());
                sub.notes.push(note.clone());
                assert(notes_view(sub.notes@) =~= seq![note@]);
                assert(notes_of_voice(t2, v) =~= seq![note@]);
                groups.push(sub);
                names.push(note.voice.clone());
                assert forall|a: int, b: int| 0 <= a < b < names@.len() implies names@[a]@
                    != names@[b]@ by {
                    if b == n {
                        assert(strings_view(old_names)[a] == names@[a]@);
                    } else {
                        assert(names@[a] == old_names[a] && names@[b] == old_names[b]);
                    }
                }
                assert forall|h: int| 0 <= h < groups@.len() implies is_voice_score(
                    #[trigger] groups@[h],
                    t2,
                    names@[h]@,
                ) by {
                    if h < n {
                        assert(groups@[h] == old_groups[h]);
                        assert(names@[h] == old_names[h]);
                        assert(strings_view(old_names)[h] == names@[h]@);
                        assert(names@[h]@ != v);
                    }
                }
                assert forall|g: int| 0 <= g < names@.len() implies slot@.contains_key(
                    #[trigger] names@[g]@,
                ) && slot@[names@[g]@] == g by {
                    if g < n {
                        assert(names@[g] == old_names[g]);
                        assert(strings_view(old_names)[g] == names@[g]@);
                    }
                }
                assert(strings_view(names@) =~= strings_view(old_names).push(v));
                assert forall|x: Seq<char>| strings_view(names@).contains(x) <==> voices_in(
                    t2,
                ).contains(x) by {
                    lemma_push_contains(strings_view(old_names), v, x);
                    lemma_push_contains(voices_in(t), v, x);
                }
                assert forall|x: Seq<char>| slot@.contains_key(x) <==> strings_view(
                    names@,
                ).contains(x) by {
                    lemma_push_contains(strings_view(old_names), v, x);
                }
            },
        }
    }
    assert(s.take(s.len() as int) =~= s);
    let ghost all_names = names@;
    let ghost all_groups = groups@;
    let mut split: StringHashMap<SessionScore> = StringHashMap::new();
    while groups.len() > 0
        invariant
            names@.len() == groups@.len(),
            names@.len() <= all_names.len(),
            names@ =~= all_names.take(names@.len() as int),
            groups@ =~= all_groups.take(groups@.len() as int),
            all_names.len() == all_groups.len(),
            forall|g: int|
                0 <= g < all_groups.len() ==> is_voice_score(
                    #[trigger] all_groups[g],
                    s,
                    all_names[g]@,
                ),
            forall|x: Seq<char>|
                split@.contains_key(x) <==> exists|g: int|
                    names@.len() <= g < all_names.len() && #[trigger] all_names[g]@ == x,
            forall|x: Seq<char>|
                #[trigger] split@.contains_key(x) ==> is_voice_score(split@[x], s, x),
        decreases groups@.len(),
    {
        let k = groups.len() - 1;
        let sub = groups.pop().unwrap();
        let name = names.pop().unwrap();
        assert(sub == all_groups[k as int]);
        assert(name == all_names[k as int]);
        split.insert(name, sub);
        assert forall|x: Seq<char>| split@.contains_key(x) <==> exists|g: int|
            k <= g < all_names.len() && #[trigger] all_names[g]@ == x by {
            if x == all_names[k as int]@ {
                assert(all_names[k as int]@ == x);
            }
        }
    }
    assert forall|x: Seq<char>| split@.contains_key(x) <==> voices_in(s).contains(x) by {
        if split@.contains_key(x) {
            let g = choose|g: int| 0 <= g < all_names.len() && #[trigger] all_names[g]@ == x;
            assert(strings_view(all_names)[g] == x);
        }
        if voices_in(s).contains(x) {
            assert(strings_view(all_names).contains(x));
            let g = choose|g: int| 0 <= g < all_names.len() && strings_view(all_names)[g] == x;
            assert(all_names[g]@ == x);
        }
    }
    split
}

} // verus!
