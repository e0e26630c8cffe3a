use vstd::prelude::*;

use crate::note::{Note, NoteView, notes_view};

verus! {

/// Where `x` goes when it is inserted into `s` after every note whose
/// offset is not greater than its own: past the run of later notes at the
/// end of `s`.
pub open spec fn insert_position(s: Seq<NoteView>, x: NoteView) -> int
    decreases s.len(),
{
    if s.len() == 0 {
        0
    } else if s.last().offset_ms <= x.offset_ms {
        s.len() as int
    } else {
        insert_position(s.drop_last(), x)
    }
}

/// `s` with `x` inserted after every trailing note of later offset, as one
/// step of insertion sort does.
pub open spec fn insert_by_offset(s: Seq<NoteView>, x: NoteView) -> Seq<NoteView>
    decreases s.len(),
{
    if s.len() == 0 {
        seq![x]
    } else if s.last().offset_ms <= x.offset_ms {
        s.push(x)
    } else {
        insert_by_offset(s.drop_last(), x).push(s.last())
    }
}

/// The stable sort of `s` by offset: notes of equal offset keep their
/// order.
pub open spec fn sort_by_offset(s: Seq<NoteView>) -> Seq<NoteView>
    decreases s.len(),
{
    if s.len() == 0 {
        s
    } else {
        insert_by_offset(sort_by_offset(s.drop_last()), s.last())
    }
}

/// The offsets of `s` never decrease.
pub open spec fn sorted_by_offset(s: Seq<NoteView>) -> bool {
    forall|i: int, j: int| 0 <= i <= j < s.len() ==> s[i].offset_ms <= s[j].offset_ms
}

proof fn lemma_insert_position(s: Seq<NoteView>, x: NoteView)
    ensures
        0 <= insert_position(s, x) <= s.len(),
        insert_by_offset(s, x) == s.insert(insert_position(s, x), x),
        forall|j: int|
            insert_position(s, x) <= j < s.len() ==> #[trigger] s[j].offset_ms > x.offset_ms,
        insert_position(s, x) > 0 ==> s[insert_position(s, x) - 1].offset_ms <= x.offset_ms,
    decreases s.len(),
{
    if s.len() == 0 {
        assert(seq![x] =~= s.insert(0, x));
    } else if s.last().offset_ms <= x.offset_ms {
        assert(s.push(x) =~= s.insert(s.len() as int, x));
    } else {
        let d = s.drop_last();
        lemma_insert_position(d, x);
        let p = insert_position(d, x);
        assert(d.insert(p, x).push(s.last()) =~= s.insert(p, x));
        assert forall|j: int| p <= j < s.len() implies #[trigger] s[j].offset_ms
            > x.offset_ms by {
            if j < d.len() {
                assert(s[j] == d[j]);
            }
        }
        if p > 0 {
            assert(s[p - 1] == d[p - 1]);
        }
    }
}

proof fn lemma_insert_sorted(s: Seq<NoteView>, x: NoteView)
    requires
        sorted_by_offset(s),
    ensures
        sorted_by_offset(insert_by_offset(s, x)),
        insert_by_offset(s, x).to_multiset() =~= s.to_multiset().insert(x),
{
    lemma_insert_position(s, x);
    let p = insert_position(s, x);
    let r = s.insert(p, x);
    assert forall|i: int, j: int| 0 <= i <= j < r.len() implies r[i].offset_ms
        <= r[j].offset_ms by {
        if j < p {
        } else if j == p {
            if i < p {
                assert(s[i].offset_ms <= s[p - 1].offset_ms);
            }
        } else if i < p {
            assert(s[i].offset_ms <= s[j - 1].offset_ms);
        } else if i == p {
            assert(r[j] == s[j - 1]);
        } else {
        }
    }
    assert(r.remove(p) =~= s);
    broadcast use vstd::seq_lib::group_to_multiset_ensures;

    assert(r.to_multiset().remove(x) =~= s.to_multiset());
    assert(r.to_multiset().count(x) > 0) by {
        assert(r[p] == x);
        assert(r.contains(x));
    }
}

/// The stable sort by offset is sorted by offset and holds the same notes
/// as many times each as its input.
pub proof fn lemma_sort_by_offset(s: Seq<NoteView>)
    ensures
        sorted_by_offset(sort_by_offset(s)),
        sort_by_offset(s).to_multiset() =~= s.to_multiset(),
        sort_by_offset(s).len() == s.len(),
    decreases s.len(),
{
    broadcast use vstd::seq_lib::group_to_multiset_ensures;

    if s.len() == 0 {
    } else {
        let d = s.drop_last();
        lemma_sort_by_offset(d);
        lemma_insert_sorted(sort_by_offset(d), s.last());
        lemma_insert_position(sort_by_offset(d), s.last());
        assert(d.push(s.last()) =~= s);
    }
}

/// `r` is `s` reordered by `perm` (`r[k]` is `s[perm[k]]`, each index of
/// `s` used once), sorted by offset, and notes of equal offset keep the
/// order they had in `s`.
pub open spec fn is_stable_sort_of(r: Seq<NoteView>, s: Seq<NoteView>, perm: Seq<int>) -> bool {
    &&& r.len() == s.len()
    &&& perm.len() == s.len()
    &&& forall|k: int| 0 <= k < r.len() ==> 0 <= #[trigger] perm[k] < s.len() && r[k] == s[perm[k]]
    &&& forall|k1: int, k2: int| 0 <= k1 < k2 < r.len() ==> perm[k1] != perm[k2]
    &&& sorted_by_offset(r)
    &&& forall|k1: int, k2: int|
        0 <= k1 < k2 < r.len() && r[k1].offset_ms == r[k2].offset_ms ==> perm[k1] < perm[k2]
}

pub(crate) proof fn stable_sort_witness(s: Seq<NoteView>) -> (perm: Seq<int>)
    ensures
        is_stable_sort_of(sort_by_offset(s), s, perm),
        zip_tags(sort_by_offset(s), perm).to_multiset() =~= tag_positions(s).to_multiset(),
    decreases s.len(),
{
    if s.len() == 0 {
        let perm = Seq::<int>::empty();
        assert(zip_tags(sort_by_offset(s), perm) =~= tag_positions(s));
        perm
    } else {
        let d = s.drop_last();
        let x = s.last();
        let n = d.len() as int;
        let perm_d = stable_sort_witness(d);
        let rd = sort_by_offset(d);
        lemma_insert_position(rd, x);
        lemma_insert_sorted(rd, x);
        let p = insert_position(rd, x);
        let r = rd.insert(p, x);
        let perm = perm_d.insert(p, n);
        assert(r == sort_by_offset(s));
        {
            broadcast use vstd::seq_lib::group_to_multiset_ensures;

            let zd = zip_tags(rd, perm_d);
            assert(zip_tags(r, perm) =~= zd.insert(p, (x, n)));
            assert(zd.insert(p, (x, n)).to_multiset() =~= zd.to_multiset().insert((x, n)));
            assert(tag_positions(s) =~= tag_positions(d).push((x, n)));
            assert(tag_positions(d).push((x, n)).to_multiset() =~= tag_positions(d).to_multiset().insert((x, n)));
        }
        assert forall|k: int| 0 <= k < r.len() implies 0 <= #[trigger] perm[k] < s.len() && r[k]
            == s[perm[k]] by {
            if k < p {
                assert(perm[k] == perm_d[k]);
                assert(s[perm_d[k]] == d[perm_d[k]]);
            } else if k > p {
                assert(perm[k] == perm_d[k - 1]);
                assert(s[perm_d[k - 1]] == d[perm_d[k - 1]]);
            }
        }
        assert forall|k1: int, k2: int| 0 <= k1 < k2 < r.len() implies perm[k1] != perm[k2] by {
            if k1 != p && k2 != p {
                let j1 = if k1 < p { k1 } else { k1 - 1 };
                let j2 = if k2 < p { k2 } else { k2 - 1 };
                assert(perm[k1] == perm_d[j1] && perm[k2] == perm_d[j2]);
            } else if k1 == p {
                assert(perm_d[k2 - 1] < n);
            } else {
                assert(perm_d[k1] < n);
            }
        }
        assert forall|k1: int, k2: int|
            0 <= k1 < k2 < r.len() && r[k1].offset_ms == r[k2].offset_ms implies perm[k1]
            < perm[k2] by {
            if k1 != p && k2 != p {
                let j1 = if k1 < p { k1 } else { k1 - 1 };
                let j2 = if k2 < p { k2 } else { k2 - 1 };
                assert(perm[k1] == perm_d[j1] && perm[k2] == perm_d[j2]);
                assert(r[k1] == rd[j1] && r[k2] == rd[j2]);
            } else if k1 == p {
                assert(r[k2] == rd[k2 - 1]);
                assert(rd[k2 - 1].offset_ms > x.offset_ms);
            } else {
                assert(perm_d[k1] < n);
            }
        }
        perm
    }
}

/// Sorting by offset is stable: the result is the input reordered so that
/// offsets never decrease, and notes of equal offset keep their input order.
pub proof fn lemma_sort_by_offset_is_stable(s: Seq<NoteView>)
    ensures
        exists|perm: Seq<int>| is_stable_sort_of(sort_by_offset(s), s, perm),
{
    let perm = stable_sort_witness(s);
    assert(is_stable_sort_of(sort_by_offset(s), s, perm));
}


/// The order in which a stable sort by offset puts notes tagged with their
/// position in the input: by offset, then by position.
pub open spec fn key_lt(a: (NoteView, int), b: (NoteView, int)) -> bool {
    a.0.offset_ms < b.0.offset_ms || (a.0.offset_ms == b.0.offset_ms && a.1 < b.1)
}

/// Each tagged note of `t` comes strictly before every later one.
pub open spec fn strictly_keyed(t: Seq<(NoteView, int)>) -> bool {
    forall|i: int, j: int| 0 <= i < j < t.len() ==> key_lt(t[i], t[j])
}

/// Each note of `s` tagged with its position.
pub open spec fn tag_positions(s: Seq<NoteView>) -> Seq<(NoteView, int)> {
    Seq::new(s.len(), |i: int| (s[i], i))
}

/// Each note of `r` tagged with the matching entry of `tags`.
pub open spec fn zip_tags(r: Seq<NoteView>, tags: Seq<int>) -> Seq<(NoteView, int)> {
    Seq::new(r.len(), |k: int| (r[k], tags[k]))
}

/// The notes of a tagged sequence.
pub open spec fn untag(t: Seq<(NoteView, int)>) -> Seq<NoteView> {
    t.map_values(|e: (NoteView, int)| e.0)
}

/// Two strictly keyed sequences with the same elements are equal.
proof fn lemma_strictly_keyed_unique(t1: Seq<(NoteView, int)>, t2: Seq<(NoteView, int)>)
    requires
        strictly_keyed(t1),
        strictly_keyed(t2),
        t1.to_multiset() =~= t2.to_multiset(),
    ensures
        t1 == t2,
    decreases t1.len(),
{
    broadcast use vstd::seq_lib::group_to_multiset_ensures;

    assert(t1.to_multiset().len() == t2.to_multiset().len());
    if t1.len() == 0 {
        assert(t1 =~= t2);
    } else {
        let n = t1.len() - 1;
        let x1 = t1.last();
        let x2 = t2.last();
        assert(t1.contains(x1)) by {
            assert(t1[n] == x1);
        }
        assert(t2.contains(x2)) by {
            assert(t2[n] == x2);
        }
        assert(t1.to_multiset().count(x2) > 0);
        assert(t2.to_multiset().count(x1) > 0);
        let i = choose|i: int| 0 <= i < t1.len() && t1[i] == x2;
        let j = choose|j: int| 0 <= j < t2.len() && t2[j] == x1;
        if i != n && j != n {
            assert(key_lt(t1[i], t1[n]));
            assert(key_lt(t2[j], t2[n]));
        }
        assert(x1 == x2);
        let d1 = t1.drop_last();
        let d2 = t2.drop_last();
        assert(t1.remove(n) =~= d1);
        assert(t2.remove(n) =~= d2);
        assert(d1.to_multiset() =~= d2.to_multiset());
        assert(strictly_keyed(d2)) by {
            assert forall|a: int, b: int| 0 <= a < b < d2.len() implies key_lt(d2[a], d2[b]) by {
                assert(d2[a] == t2[a] && d2[b] == t2[b]);
            }
        }
        lemma_strictly_keyed_unique(d1, d2);
        assert(t1 =~= t2) by {
            assert forall|k: int| 0 <= k < t1.len() implies t1[k] == t2[k] by {
                if k < n {
                    assert(t1[k] == d1[k] && t2[k] == d2[k]);
                }
            }
        }
    }
}

/// A tagged sequence that is strictly keyed and holds exactly the tagged
/// notes of `s` is the stable sort of `s` by offset.
proof fn lemma_strictly_keyed_is_sort(t: Seq<(NoteView, int)>, s: Seq<NoteView>)
    requires
        strictly_keyed(t),
        t.to_multiset() =~= tag_positions(s).to_multiset(),
    ensures
        untag(t) == sort_by_offset(s),
{
    let perm = stable_sort_witness(s);
    let r = sort_by_offset(s);
    let z = zip_tags(r, perm);
    assert(is_stable_sort_of(r, s, perm));
    assert(strictly_keyed(z)) by {
        assert forall|a: int, b: int| 0 <= a < b < z.len() implies key_lt(z[a], z[b]) by {
            assert(r[a].offset_ms <= r[b].offset_ms);
            assert(perm[a] != perm[b]);
        }
    }
    lemma_strictly_keyed_unique(t, z);
    assert(untag(z) =~= r);
}

proof fn lemma_tag_positions_split(s: Seq<NoteView>, mid: int)
    requires
        0 <= mid <= s.len(),
    ensures
        tag_positions(s) =~= tag_positions(s).take(mid) + tag_positions(s).skip(mid),
{
}

/// Merges two strictly keyed runs whose tags all come before each other's.
fn merge_notes(
    a: &Vec<Note>,
    Ghost(ta): Ghost<Seq<(NoteView, int)>>,
    b: &Vec<Note>,
    Ghost(tb): Ghost<Seq<(NoteView, int)>>,
) -> (r: (Vec<Note>, Ghost<Seq<(NoteView, int)>>))
    requires
        untag(ta) == notes_view(a@),
        untag(tb) == notes_view(b@),
        strictly_keyed(ta),
        strictly_keyed(tb),
        forall|i: int, j: int| 0 <= i < ta.len() && 0 <= j < tb.len() ==> ta[i].1 < tb[j].1,
    ensures
        untag(r.1@) == notes_view(r.0@),
        strictly_keyed(r.1@),
        r.1@.to_multiset() =~= ta.to_multiset().add(tb.to_multiset()),
{
    broadcast use vstd::seq_lib::group_to_multiset_ensures;

    let mut out: Vec<Note> = Vec::new();
    let ghost mut tout: Seq<(NoteView, int)> = Seq::empty();
    let mut i: usize = 0;
    let mut j: usize = 0;
    assert(ta.len() == a@.len() && tb.len() == b@.len()) by {
        assert(untag(ta).len() == ta.len());
        assert(untag(tb).len() == tb.len());
    }
    assert(ta.take(0) =~= Seq::<(NoteView, int)>::empty());
    assert(tb.take(0) =~= Seq::<(NoteView, int)>::empty());
    while i < a.len() || j < b.len()
        invariant
            ta.len() == a@.len(),
            tb.len() == b@.len(),
            untag(ta) == notes_view(a@),
            untag(tb) == notes_view(b@),
            strictly_keyed(ta),
            strictly_keyed(tb),
            forall|i: int, j: int| 0 <= i < ta.len() && 0 <= j < tb.len() ==> ta[i].1 < tb[j].1,
            i <= a@.len(),
            j <= b@.len(),
            untag(tout) == notes_view(out@),
            strictly_keyed(tout),
            tout.to_multiset() =~= ta.take(i as int).to_multiset().add(
                tb.take(j as int).to_multiset(),
            ),
            tout.len() > 0 && i < a@.len() ==> key_lt(tout.last(), ta[i as int]),
            tout.len() > 0 && j < b@.len() ==> key_lt(tout.last(), tb[j as int]),
        decreases a@.len() + b@.len() - i - j,
    {
        let ghost before = out@;
        let take_left = j == b.len() || (i < a.len() && a[i].offset_ms <= b[j].offset_ms);
        let ghost x: (NoteView, int);
        if take_left {
            assert(untag(ta)[i as int] == ta[i as int].0);
            proof {
                x = ta[i as int];
            }
            out.push(a[i].clone());
            assert(ta.take(i + 1) =~= ta.take(i as int).push(x));
            if j < b.len() {
                assert(untag(tb)[j as int] == tb[j as int].0);
                assert(key_lt(x, tb[j as int]));
            }
            if i + 1 < a.len() {
                assert(key_lt(ta[i as int], ta[i + 1]));
            }
            i = i + 1;
        } else {
            assert(untag(tb)[j as int] == tb[j as int].0);
            proof {
                x = tb[j as int];
            }
            out.push(b[j].clone());
            assert(tb.take(j + 1) =~= tb.take(j as int).push(x));
            if i < a.len() {
                assert(untag(ta)[i as int] == ta[i as int].0);
                assert(key_lt(x, ta[i as int]));
            }
            if j + 1 < b.len() {
                assert(key_lt(tb[j as int], tb[j + 1]));
            }
            j = j + 1;
        }
        let ghost old_tout = tout;
        proof {
            tout = tout.push(x);
        }
        assert(untag(tout) =~= untag(old_tout).push(x.0));
        assert(notes_view(out@) =~= notes_view(before).push(x.0));
        assert(strictly_keyed(tout)) by {
            assert forall|p: int, q: int| 0 <= p < q < tout.len() implies key_lt(
                tout[p],
                tout[q],
            ) by {
                if q == tout.len() - 1 && p < q - 1 {
                    assert(key_lt(old_tout[p], old_tout[old_tout.len() - 1]));
                }
            }
        }
        proof {
            vstd::seq_lib::to_multiset_build(old_tout, x);
            if take_left {
                vstd::seq_lib::to_multiset_build(ta.take(i - 1), x);
            } else {
                vstd::seq_lib::to_multiset_build(tb.take(j - 1), x);
            }
        }
    }
    assert(ta.take(ta.len() as int) =~= ta);
    assert(tb.take(tb.len() as int) =~= tb);
    (out, Ghost(tout))
}

/// Sorts notes stably by offset (merge sort), tracking each note's tag.
fn merge_sort_notes(v: Vec<Note>, Ghost(tags): Ghost<Seq<(NoteView, int)>>) -> (r: (
    Vec<Note>,
    Ghost<Seq<(NoteView, int)>>,
))
    requires
        untag(tags) == notes_view(v@),
        forall|i: int, j: int| 0 <= i < j < tags.len() ==> tags[i].1 < tags[j].1,
    ensures
        untag(r.1@) == notes_view(r.0@),
        strictly_keyed(r.1@),
        r.1@.to_multiset() =~= tags.to_multiset(),
    decreases v@.len(),
{
    assert(untag(tags).len() == tags.len());
    if v.len() <= 1 {
        assert(strictly_keyed(tags));
        return (v, Ghost(tags));
    }
    let mut left = v;
    let mid = left.len() / 2;
    let ghost whole = left@;
    let right = left.split_off(mid);
    let ghost tl = tags.take(mid as int);
    let ghost tr = tags.skip(mid as int);
    assert(untag(tl) =~= notes_view(left@)) by {
        assert forall|k: int| 0 <= k < tl.len() implies untag(tl)[k] == notes_view(left@)[k] by {
            assert(untag(tags)[k] == notes_view(whole)[k]);
        }
    }
    assert(untag(tr) =~= notes_view(right@)) by {
        assert forall|k: int| 0 <= k < tr.len() implies untag(tr)[k] == notes_view(right@)[k] by {
            assert(untag(tags)[mid + k] == notes_view(whole)[mid + k]);
        }
    }
    let (sl, Ghost(sortl)) = merge_sort_notes(left, Ghost(tl));
    let (sr, Ghost(sortr)) = merge_sort_notes(right, Ghost(tr));
    assert forall|i: int, j: int| 0 <= i < sortl.len() && 0 <= j < sortr.len() implies sortl[i].1
        < sortr[j].1 by {
        broadcast use vstd::seq_lib::group_to_multiset_ensures;

        assert(sortl.contains(sortl[i]));
        assert(tl.to_multiset().count(sortl[i]) > 0);
        let p = choose|p: int| 0 <= p < tl.len() && tl[p] == sortl[i];
        assert(sortr.contains(sortr[j]));
        assert(tr.to_multiset().count(sortr[j]) > 0);
        let q = choose|q: int| 0 <= q < tr.len() && tr[q] == sortr[j];
        assert(tags[p].1 < tags[mid + q].1);
    }
    let (merged, Ghost(tm)) = merge_notes(&sl, Ghost(sortl), &sr, Ghost(sortr));
    proof {
        assert(tags =~= tl + tr);
        vstd::seq_lib::lemma_multiset_commutative(tl, tr);
    }
    (merged, Ghost(tm))
}

/// Sorts notes stably by offset in `O(n log n)`: notes of equal offset
/// keep their order.
pub fn sort_notes_by_offset(v: Vec<Note>) -> (r: Vec<Note>)
    ensures
        notes_view(r@) == sort_by_offset(notes_view(v@)),
{
    let ghost s = notes_view(v@);
    assert(untag(tag_positions(s)) =~= s);
    let (r, Ghost(t)) = merge_sort_notes(v, Ghost(tag_positions(s)));
    proof {
        lemma_strictly_keyed_is_sort(t, s);
    }
    r
}

} // verus!
