use vstd::prelude::*;

use crate::note::{Note, NoteView, notes_view};
use crate::score::{SessionScore, ends_fit, max_end};
use crate::sort::sorted_by_offset;

verus! {

/// The notes that start in the window `[start, end)`.
pub open spec fn starts_in(start: int, end: int) -> spec_fn(NoteView) -> bool {
    |n: NoteView| start <= n.offset_ms && n.offset_ms < end
}

/// The notes of `s` that start in `[start, end)`, in the order of `s`.
pub open spec fn notes_in_window(s: Seq<NoteView>, start: int, end: int) -> Seq<NoteView> {
    s.filter(starts_in(start, end))
}

/// The notes of a window are the notes of the score that start in it, in
/// score order: each one starts at or after `start` and before `end` and
/// is a note of the score, and every note of the score that starts there
/// is among them.
pub proof fn lemma_window_contents(s: Seq<NoteView>, start: int, end: int)
    ensures
        notes_in_window(s, start, end).len() <= s.len(),
        forall|k: int|
            0 <= k < notes_in_window(s, start, end).len() ==> start <= (
            #[trigger] notes_in_window(s, start, end)[k]).offset_ms < end && s.contains(
                notes_in_window(s, start, end)[k],
            ),
        forall|i: int|
            0 <= i < s.len() && start <= s[i].offset_ms < end ==> notes_in_window(
                s,
                start,
                end,
            ).contains(#[trigger] s[i]),
{
    let w = notes_in_window(s, start, end);
    s.lemma_filter_len(starts_in(start, end));
    assert forall|k: int| 0 <= k < w.len() implies start <= (#[trigger] w[k]).offset_ms < end
        && s.contains(w[k]) by {
        s.lemma_filter_pred(starts_in(start, end), k);
        assert(w.contains(w[k]));
        s.lemma_filter_contains_rev(starts_in(start, end), w[k]);
    }
    assert forall|i: int| 0 <= i < s.len() && start <= s[i].offset_ms < end implies w.contains(
        #[trigger] s[i],
    ) by {
        s.lemma_filter_contains(starts_in(start, end), i);
    }
}

proof fn lemma_window_empty_after(s: Seq<NoteView>, start: int, end: int)
    requires
        forall|i: int| 0 <= i < s.len() ==> #[trigger] s[i].offset_ms < start,
    ensures
        notes_in_window(s, start, end) == Seq::<NoteView>::empty(),
    decreases s.len(),
{
    reveal_with_fuel(Seq::filter, 1);
    if s.len() > 0 {
        let d = s.drop_last();
        assert forall|i: int| 0 <= i < d.len() implies #[trigger] d[i].offset_ms < start by {
            assert(d[i] == s[i]);
        }
        lemma_window_empty_after(d, start, end);
    }
}

/// Causal playback: on a score sorted by offset, the notes of the window
/// `[a, b)` followed by those of `[b, c)` are exactly the notes of `[a, c)`,
/// so ticking through consecutive windows emits every note once, in order.
pub proof fn lemma_consecutive_windows(s: Seq<NoteView>, a: int, b: int, c: int)
    requires
        sorted_by_offset(s),
        a <= b <= c,
    ensures
        notes_in_window(s, a, b) + notes_in_window(s, b, c) == notes_in_window(s, a, c),
    decreases s.len(),
{
    reveal_with_fuel(Seq::filter, 1);
    if s.len() == 0 {
        assert(notes_in_window(s, a, b) + notes_in_window(s, b, c) =~= notes_in_window(s, a, c));
    } else {
        let d = s.drop_last();
        let x = s.last();
        assert(sorted_by_offset(d)) by {
            assert forall|i: int, j: int| 0 <= i <= j < d.len() implies d[i].offset_ms
                <= d[j].offset_ms by {
                assert(d[i] == s[i] && d[j] == s[j]);
            }
        }
        lemma_consecutive_windows(d, a, b, c);
        if a <= x.offset_ms && x.offset_ms < b {
            assert forall|i: int| 0 <= i < d.len() implies #[trigger] d[i].offset_ms < b by {
                assert(d[i] == s[i]);
                assert(s[i].offset_ms <= s[s.len() - 1].offset_ms);
            }
            lemma_window_empty_after(d, b, c);
            assert(notes_in_window(s, a, b) + notes_in_window(s, b, c) =~= notes_in_window(
                s,
                a,
                c,
            ));
        } else if b <= x.offset_ms && x.offset_ms < c {
            assert(notes_in_window(s, a, b) + notes_in_window(s, b, c) =~= notes_in_window(
                s,
                a,
                c,
            ));
        } else {
        }
    }
}

/// On any score, the notes of `[a, b)` and of `[b, c)` together are the
/// notes of `[a, c)`, each as many times.
pub proof fn lemma_consecutive_windows_multiset(s: Seq<NoteView>, a: int, b: int, c: int)
    requires
        a <= b <= c,
    ensures
        (notes_in_window(s, a, b) + notes_in_window(s, b, c)).to_multiset()
            =~= notes_in_window(s, a, c).to_multiset(),
    decreases s.len(),
{
    reveal_with_fuel(Seq::filter, 1);
    broadcast use vstd::seq_lib::group_to_multiset_ensures;

    if s.len() > 0 {
        let d = s.drop_last();
        let x = s.last();
        lemma_consecutive_windows_multiset(d, a, b, c);
        let w1 = notes_in_window(d, a, b);
        let w2 = notes_in_window(d, b, c);
        vstd::seq_lib::lemma_multiset_commutative(w1, w2);
        if a <= x.offset_ms && x.offset_ms < b {
            vstd::seq_lib::lemma_multiset_commutative(w1.push(x), w2);
        } else if b <= x.offset_ms && x.offset_ms < c {
            vstd::seq_lib::lemma_multiset_commutative(w1, w2.push(x));
        } else {
        }
    }
}

/// How many ticks of `dt` it takes to go from `position` to `duration`:
/// `ceil((duration - position) / dt)`, or none when already there.
pub open spec fn ticks_until_finished(position: int, duration: int, dt: int) -> int {
    if position >= duration {
        0
    } else {
        (duration - position + dt - 1) / dt
    }
}

/// The playback loop ends: from a player at position `q` on a score of
/// duration `D` (with `D + dt` within `u32`), ticking by `dt > 0` finishes
/// after exactly `ticks_until_finished(q, D, dt)` ticks. Before each of
/// those ticks the player is not finished and the tick does not overflow;
/// after them it is finished. (Each tick advances the position by `dt` and
/// keeps the score; `is_finished` compares the position with `D`.)
pub proof fn lemma_playback_finishes(p: SessionPlayer, dt: u32)
    requires
        dt > 0,
        ends_fit(notes_view(p.score().notes@)),
        max_end(notes_view(p.score().notes@)) + dt <= u32::MAX,
    ensures
        p.position() + ticks_until_finished(
            p.position() as int,
            max_end(notes_view(p.score().notes@)),
            dt as int,
        ) * dt >= max_end(notes_view(p.score().notes@)),
        forall|j: int|
            0 <= j < ticks_until_finished(
                p.position() as int,
                max_end(notes_view(p.score().notes@)),
                dt as int,
            ) ==> #[trigger] (p.position() + j * dt) < max_end(notes_view(p.score().notes@))
                && p.position() + j * dt + dt <= u32::MAX,
{
    let q = p.position() as int;
    let d = max_end(notes_view(p.score().notes@));
    let t = dt as int;
    let k = ticks_until_finished(q, d, t);
    if q < d {
        let x = d - q + t - 1;
        vstd::arithmetic::div_mod::lemma_fundamental_div_mod(x, t);
        vstd::arithmetic::div_mod::lemma_mod_bound(x, t);
        assert(k * t >= d - q) by (nonlinear_arith)
            requires
                x == t * k + x % t,
                x % t < t,
                x == d - q + t - 1,
        ;
        assert forall|j: int| 0 <= j < k implies #[trigger] (q + j * t) < d && q + j * t + t
            <= u32::MAX by {
            assert(j * t <= (k - 1) * t) by (nonlinear_arith)
                requires
                    j <= k - 1,
                    t > 0,
            ;
            assert((k - 1) * t == k * t - t) by (nonlinear_arith);
            assert(k * t <= x) by (nonlinear_arith)
                requires
                    x == t * k + x % t,
                    x % t >= 0,
            ;
        }
    }
}

/// Replays a session score, yielding notes at the correct time.
pub struct SessionPlayer {
    score: SessionScore,
    position_ms: u32,
}

impl SessionPlayer {
    /// The score being replayed.
    pub closed spec fn score(&self) -> SessionScore {
        self.score
    }

    /// The playback position in milliseconds.
    pub closed spec fn position(&self) -> u32 {
        self.position_ms
    }

    /// A player at the start of `score`.
    pub fn new(score: SessionScore) -> (p: Self)
        ensures
            p.score() == score,
            p.position() == 0,
    {
        SessionPlayer { score, position_ms: 0 }
    }

    /// Advance by `dt` milliseconds and return the notes that start in this
    /// window, `[position, position + dt)`, in score order.
    pub fn tick(&mut self, dt_ms: u32) -> (notes: Vec<Note>)
        requires
            old(self).position() + dt_ms <= u32::MAX,
        ensures
            final(self).score() == old(self).score(),
            final(self).position() == old(self).position() + dt_ms,
            notes_view(notes@) == notes_in_window(
                notes_view(old(self).score().notes@),
                old(self).position() as int,
                old(self).position() + dt_ms,
            ),
    {
        let start = self.position_ms;
        let end = start + dt_ms;
        let ghost s = notes_view(self.score.notes@);
        let ghost pred = starts_in(start as int, end as int);
        let mut out: Vec<Note> = Vec::new();
        assert(s.take(0).filter(pred) =~= Seq::<NoteView>::empty()) by {
            reveal_with_fuel(Seq::filter, 1);
        }
        for i in 0..self.score.notes.len()
            invariant
                s == notes_view(self.score.notes@),
                pred == starts_in(start as int, end as int),
                notes_view(out@) == s.take(i as int).filter(pred),
        {
            let n = &self.score.notes[i];
            assert(s.take(i + 1).drop_last() =~= s.take(i as int));
            assert(s.take(i + 1).last() == n@);
            proof {
                reveal_with_fuel(Seq::filter, 1);
            }
            if n.offset_ms >= start && n.offset_ms < end {
                let ghost before = out@;
                out.push(n.clone());
                assert(notes_view(out@) =~= notes_view(before).push(n@));
            }
        }
        assert(s.take(s.len() as int) =~= s);
        self.position_ms = end;
        out
    }

    /// Whether playback has reached the end of the last note.
    pub fn is_finished(&self) -> (finished: bool)
        requires
            ends_fit(notes_view(self.score().notes@)),
        ensures
            finished == (self.position() >= max_end(notes_view(self.score().notes@))),
    {
        self.position_ms >= self.score.duration_ms()
    }

    pub fn position_ms(&self) -> (position: u32)
        ensures
            position == self.position(),
    {
        self.position_ms
    }

    /// Rewinds to the start of the score.
    pub fn reset(&mut self)
        ensures
            final(self).score() == old(self).score(),
            final(self).position() == 0,
    {
        self.position_ms = 0;
    }
}

} // verus!
