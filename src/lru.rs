//! Least-recently-used eviction.
use vstd::prelude::*;
use crate::policy::{Policy, PolicyErr};

verus! {

/// An LRU eviction policy for the database buffer: candidates are kept in
/// the order in which they were last unpinned, least recently used first.
///
/// The order is a doubly-linked list threaded through per-frame tables:
/// `prev[f]` and `next[f]` are the neighbours of frame `f` and `linked[f]`
/// says whether `f` is in the list, so every operation takes constant time
/// (amortized, as the tables grow to the largest frame seen).
pub struct LRUPolicy {
    prev: Vec<Option<u32>>,
    next: Vec<Option<u32>>,
    linked: Vec<bool>,
    head: Option<u32>,
    tail: Option<u32>,
    order: Ghost<Seq<u32>>,
}

impl LRUPolicy {
    /// The candidates, least recently used first.
    pub closed spec fn order(&self) -> Seq<u32> {
        self.order@
    }

    /// The tables describe the list `order`.
    closed spec fn links_ok(&self) -> bool {
        let s = self.order@;
        let n = s.len();
        let cap = self.linked@.len();
        &&& self.prev@.len() == cap
        &&& self.next@.len() == cap
        &&& s.no_duplicates()
        &&& forall|k: int| #![trigger s[k]] 0 <= k < n ==> s[k] < cap && self.linked@[s[k] as int]
        &&& forall|f: u32| (f as int) < cap && #[trigger] self.linked@[f as int] ==> s.contains(f)
        &&& forall|k: int| #![trigger s[k]] 0 < k < n ==> self.prev@[s[k] as int] == Some(s[k - 1])
        &&& forall|k: int| #![trigger s[k]] 0 <= k < n - 1 ==> self.next@[s[k] as int] == Some(s[k + 1])
        &&& n > 0 ==> {
            &&& self.prev@[s[0] as int] == None::<u32>
            &&& self.next@[s[n - 1] as int] == None::<u32>
            &&& self.head == Some(s[0])
            &&& self.tail == Some(s[n - 1])
        }
        &&& n == 0 ==> self.head == None::<u32> && self.tail == None::<u32>
    }

    /// Takes the linked frame `f` out of the list.
    #[verifier::rlimit(100)]
    #[verifier::spinoff_prover]
    fn unlink(&mut self, f: u32)
        requires
            old(self).links_ok(),
            old(self).order@.contains(f),
        ensures
            final(self).links_ok(),
            final(self).linked@.len() == old(self).linked@.len(),
            final(self).order@ == without(old(self).order@, f),
    {
        let ghost s = self.order@;
        let ghost k = choose|k: int| 0 <= k < s.len() && s[k] == f;
        let ghost n = s.len();
        let fi = f as usize;
        let p = self.prev[fi];
        let nx = self.next[fi];
        proof {
            assert(s[k] == f);
            if k > 0 { assert(p == Some(s[k - 1])); } else { assert(p == None::<u32>); }
            if k < n - 1 { assert(nx == Some(s[k + 1])); } else { assert(nx == None::<u32>); }
        }
        match p {
            Some(pf) => { self.next.set(pf as usize, nx); },
            None => { self.head = nx; },
        }
        match nx {
            Some(nf) => { self.prev.set(nf as usize, p); },
            None => { self.tail = p; },
        }
        self.linked.set(fi, false);
        let ghost t = s.remove(k);
        self.order = Ghost(t);
        proof {
            lemma_remove_unique(s, k, f);
            assert forall|j: int| #![trigger t[j]] 0 <= j < t.len() implies t[j] < self.linked@.len() && self.linked@[t[j] as int] by {
                if j < k { assert(t[j] == s[j]); } else { assert(t[j] == s[j + 1]); }
            }
            assert forall|g: u32| (g as int) < self.linked@.len() && #[trigger] self.linked@[g as int] implies t.contains(g) by {
                assert(g != f);
                assert(s.contains(g));
                let j = choose|j: int| 0 <= j < s.len() && s[j] == g;
                if j < k { assert(t[j] == s[j]); } else { assert(j != k); assert(t[j - 1] == s[j]); }
            }
            assert forall|j: int| #![trigger t[j]] 0 < j < t.len() implies self.prev@[t[j] as int] == Some(t[j - 1]) by {
                if j < k {
                    assert(t[j] == s[j] && t[j - 1] == s[j - 1]);
                    if k + 1 < n {
                        assert(s[j] != s[k + 1]);
                    }
                } else if j == k {
                    assert(t[j] == s[k + 1] && t[j - 1] == s[k - 1]);
                } else {
                    assert(t[j] == s[j + 1] && t[j - 1] == s[j]);
                    assert(s[j + 1] != s[k + 1]);
                }
            }
            assert forall|j: int| #![trigger t[j]] 0 <= j < t.len() - 1 implies self.next@[t[j] as int] == Some(t[j + 1]) by {
                if j < k - 1 {
                    assert(t[j] == s[j] && t[j + 1] == s[j + 1]);
                    assert(s[j] != s[k - 1]);
                } else if j == k - 1 {
                    assert(t[j] == s[k - 1] && t[j + 1] == s[k + 1]);
                } else {
                    assert(t[j] == s[j + 1] && t[j + 1] == s[j + 2]);
                    if k > 0 {
                        assert(s[j + 1] != s[k - 1]);
                    }
                }
            }
            if t.len() > 0 {
                let m = t.len();
                if k == 0 {
                    assert(t[0] == s[1]);
                } else {
                    assert(t[0] == s[0]);
                    assert(s[0] != s[k + 1] || k + 1 >= n);
                }
                if k == n - 1 {
                    assert(t[m - 1] == s[n - 2]);
                } else {
                    assert(t[m - 1] == s[n - 1]);
                    assert(s[n - 1] != s[k - 1] || k == 0);
                }
            }
        }
    }

    /// Appends the unlinked frame `f` at the most recently used end.
    fn push_back(&mut self, f: u32)
        requires
            old(self).links_ok(),
            !old(self).order@.contains(f),
            f < old(self).linked@.len(),
        ensures
            final(self).links_ok(),
            final(self).linked@.len() == old(self).linked@.len(),
            final(self).order@ == old(self).order@.push(f),
    {
        let ghost s = self.order@;
        let ghost n = s.len();
        let fi = f as usize;
        self.prev.set(fi, self.tail);
        self.next.set(fi, None);
        self.linked.set(fi, true);
        match self.tail {
            Some(tf) => { self.next.set(tf as usize, Some(f)); },
            None => { self.head = Some(f); },
        }
        self.tail = Some(f);
        let ghost t = s.push(f);
        self.order = Ghost(t);
        proof {
            assert(t[n as int] == f);
            assert forall|j: int| #![trigger t[j]] 0 <= j < t.len() implies t[j] < self.linked@.len() && self.linked@[t[j] as int] by {
                if j < n { assert(t[j] == s[j]); }
            }
            assert forall|g: u32| (g as int) < self.linked@.len() && #[trigger] self.linked@[g as int] implies t.contains(g) by {
                if g != f {
                    assert(s.contains(g));
                    let j = choose|j: int| 0 <= j < s.len() && s[j] == g;
                    assert(t[j] == s[j]);
                }
            }
            assert forall|j: int| #![trigger t[j]] 0 < j < t.len() implies self.prev@[t[j] as int] == Some(t[j - 1]) by {
                if j < n {
                    assert(t[j] == s[j] && t[j - 1] == s[j - 1]);
                } else {
                    assert(t[j - 1] == s[n - 1]);
                }
            }
            assert forall|j: int| #![trigger t[j]] 0 <= j < t.len() - 1 implies self.next@[t[j] as int] == Some(t[j + 1]) by {
                assert(t[j] == s[j]);
                if j < n - 1 {
                    assert(t[j + 1] == s[j + 1]);
                    assert(s[j] != s[n - 1]);
                }
            }
            assert(t.no_duplicates()) by {
                assert forall|i: int, j: int| 0 <= i < t.len() && 0 <= j < t.len() && i != j implies t[i] != t[j] by {
                    if i < n && j < n {
                        assert(t[i] == s[i] && t[j] == s[j]);
                    } else if i < n {
                        assert(t[i] == s[i]);
                    } else {
                        assert(t[j] == s[j]);
                    }
                }
            }
            if n > 0 {
                assert(t[0] == s[0]);
                assert(s[0] != f);
            }
        }
    }

    /// Removes `frame_id` from the order wherever it occurs.
    fn remove_frame(&mut self, frame_id: u32)
        requires
            old(self).links_ok(),
        ensures
            final(self).links_ok(),
            final(self).linked@.len() == old(self).linked@.len(),
            final(self).order@ == without(old(self).order@, frame_id),
    {
        if (frame_id as usize) < self.linked.len() && self.linked[frame_id as usize] {
            self.unlink(frame_id);
        } else {
            proof {
                if self.order@.contains(frame_id) {
                    let k = choose|k: int| 0 <= k < self.order@.len() && self.order@[k] == frame_id;
                    assert(self.order@[k] < self.linked@.len());
                }
                lemma_without_absent(self.order@, frame_id);
            }
        }
    }

    /// Grows the tables so that they cover frame `f`.
    fn cover(&mut self, f: u32)
        requires
            old(self).links_ok(),
        ensures
            final(self).links_ok(),
            final(self).order@ == old(self).order@,
            f < final(self).linked@.len(),
    {
        while self.linked.len() <= f as usize
            invariant
                self.links_ok(),
                self.order@ == old(self).order@,
            decreases f as int + 1 - self.linked@.len(),
        {
            self.prev.push(None);
            self.next.push(None);
            self.linked.push(false);
            proof {
                let s = self.order@;
                assert forall|g: u32| (g as int) < self.linked@.len() && #[trigger] self.linked@[g as int] implies s.contains(g) by {
                    assert((g as int) < self.linked@.len() - 1);
                }
            }
        }
    }
}

/// The candidates of an LRU policy are exactly the frames of its order,
/// each listed once, and the next victim is the front of the order.
pub proof fn lemma_lru_candidates_are_order(p: LRUPolicy)
    requires
        p.wf(),
    ensures
        p.order().no_duplicates(),
        forall|f: u32| #[trigger] p.candidates().contains(f) == p.order().contains(f),
        p.order().len() > 0 ==> p.next_victim() == p.order()[0],
{
}

/// `s` with every occurrence of `x` removed.
pub open spec fn without(s: Seq<u32>, x: u32) -> Seq<u32> {
    s.filter(other_than(x))
}

/// The predicate that holds of every frame but `x`.
pub open spec fn other_than(x: u32) -> spec_fn(u32) -> bool {
    |g: u32| g != x
}

proof fn lemma_without_members(s: Seq<u32>, x: u32)
    ensures
        forall|f: u32| #[trigger] without(s, x).contains(f) == (s.contains(f) && f != x),
{
    let pred = other_than(x);
    assert forall|f: u32| #[trigger] without(s, x).contains(f) == (s.contains(f) && f != x) by {
        if s.contains(f) && f != x {
            let k = choose|k: int| 0 <= k < s.len() && s[k] == f;
            s.lemma_filter_contains(pred, k);
        }
        if without(s, x).contains(f) {
            s.lemma_filter_contains_rev(pred, f);
            let k = choose|k: int| 0 <= k < s.filter(pred).len() && s.filter(pred)[k] == f;
            s.lemma_filter_pred(pred, k);
        }
    }
}

impl Policy for LRUPolicy {
    closed spec fn wf(&self) -> bool {
        self.links_ok()
    }

    closed spec fn candidates(&self) -> Set<u32> {
        Set::new(|f: u32| self.order@.contains(f))
    }

    closed spec fn next_victim(&self) -> u32 {
        self.order@[0]
    }

    open spec fn pin_step(&self, f: u32, after: &Self) -> bool {
        after.order() == without(self.order(), f)
    }

    open spec fn unpin_step(&self, f: u32, after: &Self) -> bool {
        after.order() == without(self.order(), f).push(f)
    }

    open spec fn evict_step(&self, after: &Self) -> bool {
        after.order() == self.order().subrange(1, self.order().len() as int)
    }

    fn new() -> (r: Self)
        ensures
            r.order() == Seq::<u32>::empty(),
    {
        let r = LRUPolicy {
            prev: Vec::new(),
            next: Vec::new(),
            linked: Vec::new(),
            head: None,
            tail: None,
            order: Ghost(Seq::empty()),
        };
        assert(r.candidates() =~= Set::<u32>::empty());
        r
    }

    fn evict(&mut self) -> (r: Result<u32, PolicyErr>)
        ensures
            old(self).order().len() == 0 ==> r == Err::<u32, PolicyErr>(PolicyErr::NoEvictableFrame)
                && final(self).order() == old(self).order(),
            old(self).order().len() > 0 ==> r == Ok::<u32, PolicyErr>(old(self).order()[0])
                && final(self).order() == old(self).order().subrange(1, old(self).order().len() as int),
    {
        let ghost s = self.order@;
        match self.head {
            None => {
                assert(self.candidates() =~= Set::<u32>::empty());
                Err(PolicyErr::NoEvictableFrame)
            },
            Some(f) => {
                proof {
                    if self.candidates().is_empty() {
                        assert(self.candidates().contains(s[0]));
                    }
                    lemma_remove_unique(s, 0, f);
                    assert(s.remove(0) =~= s.subrange(1, s.len() as int));
                    lemma_without_members(s, f);
                    assert(s.contains(f)) by { assert(s[0] == f); }
                }
                self.unlink(f);
                assert(self.candidates() =~= old(self).candidates().remove(f));
                Ok(f)
            },
        }
    }

    fn pin(&mut self, frame_id: u32)
        ensures
            final(self).order() == without(old(self).order(), frame_id),
    {
        self.remove_frame(frame_id);
        proof {
            lemma_without_members(old(self).order@, frame_id);
        }
        assert(self.candidates() =~= old(self).candidates().remove(frame_id));
    }

    fn unpin(&mut self, frame_id: u32)
        ensures
            final(self).order() == without(old(self).order(), frame_id).push(frame_id),
    {
        self.remove_frame(frame_id);
        proof {
            lemma_without_members(old(self).order@, frame_id);
        }
        self.cover(frame_id);
        let ghost kept = self.order@;
        self.push_back(frame_id);
        assert forall|g: u32| #[trigger] self.order@.contains(g) == (kept.contains(g) || g == frame_id) by {
            if kept.contains(g) {
                let k = choose|k: int| 0 <= k < kept.len() && kept[k] == g;
                assert(self.order@[k] == g);
            }
            if self.order@.contains(g) && g != frame_id {
                let k = choose|k: int| 0 <= k < self.order@.len() && self.order@[k] == g;
                assert(kept[k] == g);
            }
            if g == frame_id {
                assert(self.order@[kept.len() as int] == g);
            }
        }
        assert(self.candidates() =~= old(self).candidates().insert(frame_id));
    }
}

/// Removing a frame that does not occur leaves the order as it is.
pub proof fn lemma_without_absent(s: Seq<u32>, x: u32)
    requires
        !s.contains(x),
    ensures
        without(s, x) == s,
    decreases s.len(),
{
    reveal(Seq::filter);
    if s.len() > 0 {
        lemma_without_absent(s.drop_last(), x);
        assert(s.drop_last().push(s.last()) =~= s);
    }
}

proof fn lemma_remove_unique(s: Seq<u32>, i: int, x: u32)
    requires
        s.no_duplicates(),
        0 <= i < s.len(),
        s[i] == x,
    ensures
        s.remove(i).no_duplicates(),
        s.remove(i) == without(s, x),
    decreases s.len(),
{
    reveal(Seq::filter);
    if i == s.len() - 1 {
        assert(s.remove(i) =~= s.drop_last());
        assert(!s.drop_last().contains(x));
        lemma_without_absent(s.drop_last(), x);
    } else {
        let t = s.drop_last();
        lemma_remove_unique(t, i, x);
        assert(s.remove(i) =~= t.remove(i).push(s.last()));
        assert(s.last() != x);
    }
}

/// After unpinning distinct frames one by one into an empty LRU order, the
/// order lists them as they were unpinned.
proof fn lemma_unpins_build_order(states: Seq<Seq<u32>>, frames: Seq<u32>)
    requires
        frames.no_duplicates(),
        states.len() == frames.len() + 1,
        states[0] == Seq::<u32>::empty(),
        forall|i: int| 0 <= i < frames.len() ==> #[trigger] states[i + 1] == without(states[i], frames[i]).push(frames[i]),
    ensures
        forall|i: int| 0 <= i < states.len() ==> #[trigger] states[i] == frames.subrange(0, i),
    decreases frames.len(),
{
    if frames.len() > 0 {
        let n = frames.len() - 1;
        lemma_unpins_build_order(states.drop_last(), frames.drop_last());
        assert forall|i: int| 0 <= i < states.len() implies #[trigger] states[i] == frames.subrange(0, i) by {
            if i <= n {
                assert(states.drop_last()[i] == states[i]);
                assert(frames.drop_last().subrange(0, i) =~= frames.subrange(0, i));
            } else {
                assert(states.drop_last()[n] == states[n]);
                assert(frames.drop_last().subrange(0, n) =~= frames.subrange(0, n));
                assert(!frames.subrange(0, n).contains(frames[n]));
                lemma_without_absent(frames.subrange(0, n), frames[n]);
                assert(frames.subrange(0, n).push(frames[n]) =~= frames.subrange(0, i));
            }
        }
    }
}

/// Evicting from an LRU order hands out its frames front to back.
proof fn lemma_evicts_follow_order(states: Seq<Seq<u32>>, out: Seq<u32>)
    requires
        states.len() == out.len() + 1,
        forall|i: int| #![trigger states[i]] 0 <= i < out.len() ==> states[i].len() > 0 && out[i] == states[i][0]
            && states[i + 1] == states[i].subrange(1, states[i].len() as int),
    ensures
        out.len() <= states[0].len(),
        out == states[0].subrange(0, out.len() as int),
        forall|i: int| 0 <= i < states.len() ==> #[trigger] states[i] == states[0].subrange(i, states[0].len() as int),
    decreases out.len(),
{
    if out.len() > 0 {
        let n = out.len() - 1;
        let (ss, os) = (states.drop_last(), out.drop_last());
        assert forall|i: int| #![trigger ss[i]] 0 <= i < os.len() implies ss[i].len() > 0 && os[i] == ss[i][0]
            && ss[i + 1] == ss[i].subrange(1, ss[i].len() as int) by {
            assert(out[i] == os[i]);
            assert(states[i] == ss[i]);
            assert(states[i + 1] == ss[i + 1]);
        }
        assert(out[n] == out[n]);
        lemma_evicts_follow_order(ss, os);
        assert(states.drop_last()[n] == states[n]);
        assert(states.drop_last()[0] == states[0]);
        assert forall|i: int| 0 <= i < states.len() implies #[trigger] states[i] == states[0].subrange(i, states[0].len() as int) by {
            if i <= n {
                assert(states.drop_last()[i] == states[i]);
            } else {
                let s0 = states[0];
                assert(states[n] == s0.subrange(n, s0.len() as int));
                assert(states[n].len() > 0);
                assert(states[i] =~= s0.subrange(i, s0.len() as int));
            }
        }
        assert(out =~= states[0].subrange(0, out.len() as int)) by {
            assert forall|k: int| 0 <= k < out.len() implies out[k] == states[0][k] by {
                if k < n {
                    assert(out.drop_last()[k] == out[k]);
                }
            }
        }
    }
}

/// An LRU policy that starts with no candidate and is then unpinned distinct
/// frames in some order, none of them pinned again, gives those frames back
/// from successive evictions in that same order.
pub proof fn lemma_lru_evicts_in_unpin_order(unpinned: Seq<LRUPolicy>, frames: Seq<u32>, evicted: Seq<LRUPolicy>, out: Seq<u32>)
    requires
        frames.no_duplicates(),
        unpinned.len() == frames.len() + 1,
        unpinned[0].order() == Seq::<u32>::empty(),
        forall|i: int| 0 <= i < frames.len() ==> #[trigger] unpinned[i + 1].order() == without(unpinned[i].order(), frames[i]).push(frames[i]),
        evicted.len() == out.len() + 1,
        evicted[0] == unpinned.last(),
        forall|i: int| #![trigger evicted[i]] 0 <= i < out.len() ==> evicted[i].order().len() > 0 && out[i] == evicted[i].order()[0]
            && evicted[i + 1].order() == evicted[i].order().subrange(1, evicted[i].order().len() as int),
    ensures
        out.len() <= frames.len(),
        out == frames.subrange(0, out.len() as int),
{
    let us = Seq::new(unpinned.len(), |i: int| unpinned[i].order());
    lemma_unpins_build_order(us, frames);
    assert(us[frames.len() as int] =~= frames);
    let es = Seq::new(evicted.len(), |i: int| evicted[i].order());
    assert forall|i: int| #![trigger es[i]] 0 <= i < out.len() implies es[i].len() > 0 && out[i] == es[i][0]
        && es[i + 1] == es[i].subrange(1, es[i].len() as int) by {
        assert(evicted[i].order().len() > 0 && out[i] == evicted[i].order()[0]
            && evicted[i + 1].order() == evicted[i].order().subrange(1, evicted[i].order().len() as int));
        assert(es[i] == evicted[i].order());
        assert(es[i + 1] == evicted[i + 1].order());
    }
    lemma_evicts_follow_order(es, out);
}

} // verus!
