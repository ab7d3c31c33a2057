//! Per-queue pools of admission tags.
use vstd::prelude::*;

verus! {

/// Returned by `TagSet::acquire` when every tag of the queue is held.
#[derive(Clone, Copy, Debug, PartialEq, Eq, Structural)]
pub struct Busy;

/// Every tag of the pool is held.
pub open spec fn all_held(s: Seq<bool>) -> bool {
    forall|i: int| 0 <= i < s.len() ==> s[i]
}

/// `t` is the lowest tag of the pool that is not held.
pub open spec fn is_lowest_free(s: Seq<bool>, t: int) -> bool {
    &&& 0 <= t < s.len()
    &&& !s[t]
    &&& forall|i: int| 0 <= i < t ==> s[i]
}

/// The lowest free tag, where there is one.
pub open spec fn lowest_free(s: Seq<bool>) -> int {
    choose|t: int| is_lowest_free(s, t)
}

/// Number of held tags in the pool.
pub open spec fn held_count(s: Seq<bool>) -> nat
    decreases s.len(),
{
    if s.len() == 0 {
        0
    } else {
        held_count(s.drop_last()) + if s.last() {
            1nat
        } else {
            0nat
        }
    }
}

/// A pool of `depth` tags, none held.
pub open spec fn fresh_pool(depth: nat) -> Seq<bool> {
    Seq::new(depth, |i: int| false)
}

/// The pool after one acquisition, and the tag handed out (`None` for busy).
pub open spec fn acquire_spec(s: Seq<bool>) -> (Seq<bool>, Option<int>) {
    if all_held(s) {
        (s, None)
    } else {
        (s.update(lowest_free(s), true), Some(lowest_free(s)))
    }
}

/// The pool after tag `t` is given back.
pub open spec fn release_spec(s: Seq<bool>, t: int) -> Seq<bool> {
    s.update(t, false)
}

pub proof fn lemma_lowest_free(s: Seq<bool>)
    requires
        !all_held(s),
    ensures
        is_lowest_free(s, lowest_free(s)),
        forall|t: int| is_lowest_free(s, t) ==> t == lowest_free(s),
{
    let w = choose|i: int| 0 <= i < s.len() && !s[i];
    lemma_some_lowest(s, w);
    let t = lowest_free(s);
    assert forall|u: int| is_lowest_free(s, u) implies u == t by {
        if u < t {
            assert(s[u]);
        } else if t < u {
            assert(s[t]);
        }
    }
}

proof fn lemma_some_lowest(s: Seq<bool>, w: int)
    requires
        0 <= w < s.len(),
        !s[w],
    ensures
        exists|t: int| is_lowest_free(s, t),
    decreases w,
{
    if forall|i: int| 0 <= i < w ==> s[i] {
        assert(is_lowest_free(s, w));
    } else {
        let v = choose|i: int| 0 <= i < w && !s[i];
        lemma_some_lowest(s, v);
    }
}

pub proof fn lemma_held_count_bound(s: Seq<bool>)
    ensures
        held_count(s) <= s.len(),
        held_count(s) == s.len() <==> all_held(s),
        held_count(s) == 0 <==> forall|i: int| 0 <= i < s.len() ==> !s[i],
    decreases s.len(),
{
    if s.len() > 0 {
        let p = s.drop_last();
        lemma_held_count_bound(p);
        assert forall|i: int| 0 <= i < p.len() implies p[i] == s[i] by {}
        if all_held(s) {
            assert(all_held(p));
        }
        if held_count(s) == s.len() {
            assert forall|i: int| 0 <= i < s.len() implies s[i] by {
                if i < p.len() {
                    assert(p[i]);
                }
            }
        }
        if held_count(s) == 0 {
            assert forall|i: int| 0 <= i < s.len() implies !s[i] by {
                if i < p.len() {
                    assert(!p[i]);
                }
            }
        }
        if forall|i: int| 0 <= i < s.len() ==> !s[i] {
            assert(!s[s.len() - 1]);
            assert forall|i: int| 0 <= i < p.len() implies !p[i] by {
                assert(!s[i]);
            }
        }
    }
}

pub proof fn lemma_held_count_update(s: Seq<bool>, t: int, b: bool)
    requires
        0 <= t < s.len(),
    ensures
        held_count(s.update(t, b)) + (if s[t] {
            1int
        } else {
            0int
        }) == held_count(s) + (if b {
            1int
        } else {
            0int
        }),
    decreases s.len(),
{
    let u = s.update(t, b);
    if t == s.len() - 1 {
        assert(u.drop_last() =~= s.drop_last());
    } else {
        lemma_held_count_update(s.drop_last(), t, b);
        assert(u.drop_last() =~= s.drop_last().update(t, b));
    }
}

/// Admission tags of every submission queue: queue `q` owns tags
/// `0 .. queue_depth`, each held by at most one request at a time.
pub struct TagSet {
    depth: u32,
    hw_contexts: u32,
    held: Vec<Vec<bool>>,
    in_use: Vec<u32>,
}

impl View for TagSet {
    /// For each queue, for each tag, whether the tag is held.
    type V = Seq<Seq<bool>>;

    closed spec fn view(&self) -> Seq<Seq<bool>> {
        Seq::new(self.held@.len(), |q: int| self.held@[q]@)
    }
}

impl TagSet {
    /// Number of tags of each queue.
    pub closed spec fn depth(&self) -> nat {
        self.depth as nat
    }

    /// Every queue has `depth` tags, and its count of held tags is kept.
    pub closed spec fn wf(&self) -> bool {
        &&& self.in_use@.len() == self.held@.len()
        &&& forall|q: int|
            0 <= q < self.held@.len() ==> {
                &&& #[trigger] self.held@[q]@.len() == self.depth
                &&& self.in_use@[q] == held_count(self.held@[q]@)
            }
    }

    /// A tag set of `queue_count` queues of `queue_depth` tags each, none held.
    pub fn new(queue_count: u32, queue_depth: u32, hw_contexts: u32) -> (r: TagSet)
        ensures
            r.wf(),
            r.depth() == queue_depth,
            r.hw_context_count() == hw_contexts,
            r@.len() == queue_count,
            forall|q: int| 0 <= q < queue_count ==> #[trigger] r@[q] == fresh_pool(queue_depth as nat),
    {
        let mut held: Vec<Vec<bool>> = Vec::new();
        let mut in_use: Vec<u32> = Vec::new();
        let mut q: u32 = 0;
        while q < queue_count
            invariant
                q <= queue_count,
                held@.len() == q,
                in_use@.len() == q,
                forall|p: int|
                    0 <= p < q ==> {
                        &&& #[trigger] held@[p]@ == fresh_pool(queue_depth as nat)
                        &&& in_use@[p] == 0
                    },
            decreases queue_count - q,
        {
            let mut row: Vec<bool> = Vec::new();
            let mut t: u32 = 0;
            while t < queue_depth
                invariant
                    t <= queue_depth,
                    row@ == fresh_pool(t as nat),
                decreases queue_depth - t,
            {
                row.push(false);
                t = t + 1;
                assert(row@ =~= fresh_pool(t as nat));
            }
            proof {
                lemma_held_count_bound(row@);
            }
            held.push(row);
            in_use.push(0);
            q = q + 1;
        }
        let r = TagSet { depth: queue_depth, hw_contexts, held, in_use };
        proof {
            assert forall|p: int| 0 <= p < queue_count implies #[trigger] r@[p] == fresh_pool(
                queue_depth as nat,
            ) by {}
            assert forall|p: int| 0 <= p < r.held@.len() implies #[trigger] r.held@[p]@.len()
                == r.depth && r.in_use@[p] == held_count(r.held@[p]@) by {
                lemma_held_count_bound(r.held@[p]@);
            }
        }
        r
    }

    /// Number of submission queues.
    pub fn queue_count(&self) -> (r: usize)
        ensures
            r == self@.len(),
    {
        self.held.len()
    }

    /// Number of tags of each queue.
    pub fn queue_depth(&self) -> (r: u32)
        ensures
            r == self.depth(),
    {
        self.depth
    }

    /// Number of hardware contexts the set was configured with.
    pub closed spec fn hw_context_count(&self) -> nat {
        self.hw_contexts as nat
    }

    /// Number of hardware contexts the set was configured with.
    pub fn hw_contexts(&self) -> (r: u32)
        ensures
            r == self.hw_context_count(),
    {
        self.hw_contexts
    }

    /// Number of tags of queue `q` that are held.
    pub fn outstanding(&self, q: usize) -> (r: u32)
        requires
            self.wf(),
            q < self@.len(),
        ensures
            r == held_count(self@[q as int]),
    {
        self.in_use[q]
    }

    /// Whether tag `t` of queue `q` is held.
    pub fn is_held(&self, q: usize, t: u32) -> (r: bool)
        requires
            self.wf(),
            q < self@.len(),
            t < self.depth(),
        ensures
            r == self@[q as int][t as int],
    {
        self.held[q][t as usize]
    }

    /// Whether no tag of any queue is held.
    pub fn is_idle(&self) -> (r: bool)
        requires
            self.wf(),
        ensures
            r == forall|q: int, t: int|
                0 <= q < self@.len() && 0 <= t < self@[q].len() ==> !#[trigger] self@[q][t],
    {
        let mut q: usize = 0;
        while q < self.in_use.len()
            invariant
                self.wf(),
                q <= self@.len(),
                forall|p: int, t: int|
                    0 <= p < q && 0 <= t < self@[p].len() ==> !#[trigger] self@[p][t],
            decreases self@.len() - q,
        {
            proof {
                lemma_held_count_bound(self@[q as int]);
            }
            if self.in_use[q] != 0 {
                assert(!(forall|t: int|
                    0 <= t < self@[q as int].len() ==> !#[trigger] self@[q as int][t]));
                return false;
            }
            q = q + 1;
        }
        true
    }

    /// Hands out the lowest free tag of queue `q`, or `Busy` when all are held.
    pub fn acquire(&mut self, q: usize) -> (r: Result<u32, Busy>)
        requires
            old(self).wf(),
            q < old(self)@.len(),
        ensures
            final(self).wf(),
            final(self).depth() == old(self).depth(),
            final(self).hw_context_count() == old(self).hw_context_count(),
            final(self)@ == old(self)@.update(q as int, acquire_spec(old(self)@[q as int]).0),
            match r {
                Ok(t) => acquire_spec(old(self)@[q as int]).1 == Some(t as int),
                Err(_) => acquire_spec(old(self)@[q as int]).1 is None,
            },
            r is Ok ==> held_count(final(self)@[q as int]) == held_count(old(self)@[q as int]) + 1,
            r is Err ==> held_count(old(self)@[q as int]) == old(self).depth(),
    {
        let ghost s = self@[q as int];
        proof {
            lemma_held_count_bound(s);
        }
        if self.in_use[q] == self.depth {
            return Err(Busy);
        }
        proof {
            lemma_lowest_free(s);
        }
        let mut t: u32 = 0;
        while self.held[q][t as usize]
            invariant
                self.wf(),
                q < self@.len(),
                s == self@[q as int],
                !all_held(s),
                is_lowest_free(s, lowest_free(s)),
                0 <= t <= lowest_free(s),
                forall|i: int| 0 <= i < t ==> s[i],
            decreases lowest_free(s) - t,
        {
            t = t + 1;
        }
        assert(is_lowest_free(s, t as int));
        self.held[q].set(t as usize, true);
        proof {
            lemma_held_count_update(s, t as int, true);
            lemma_held_count_bound(self.held@[q as int]@);
        }
        self.in_use.set(q, self.in_use[q] + 1);
        proof {
            assert(self@ =~= old(self)@.update(q as int, acquire_spec(s).0));
        }
        Ok(t)
    }

    /// Gives tag `t` of queue `q` back to its pool.
    pub fn release(&mut self, q: usize, t: u32)
        requires
            old(self).wf(),
            q < old(self)@.len(),
            t < old(self).depth(),
            old(self)@[q as int][t as int],
        ensures
            final(self).wf(),
            final(self).depth() == old(self).depth(),
            final(self).hw_context_count() == old(self).hw_context_count(),
            final(self)@ == old(self)@.update(q as int, release_spec(old(self)@[q as int], t as int)),
            held_count(final(self)@[q as int]) + 1 == held_count(old(self)@[q as int]),
    {
        let ghost s = self@[q as int];
        proof {
            lemma_held_count_update(s, t as int, false);
        }
        self.held[q].set(t as usize, false);
        self.in_use.set(q, self.in_use[q] - 1);
        proof {
            assert(self@ =~= old(self)@.update(q as int, release_spec(s, t as int)));
        }
    }
}

/// `n` acquisitions, each followed at once by the release of the tag it
/// handed out, all get a tag.
pub open spec fn recycles(s: Seq<bool>, n: nat) -> bool
    decreases n,
{
    n == 0 || {
        let (p, t) = acquire_spec(s);
        t is Some && recycles(release_spec(p, t->0), (n - 1) as nat)
    }
}

/// The pool after `n` acquisitions with no release, with how many were
/// admitted and how many found the pool busy.
pub open spec fn burst(s: Seq<bool>, n: nat) -> (Seq<bool>, nat, nat)
    decreases n,
{
    if n == 0 {
        (s, 0, 0)
    } else {
        let (p, admitted, busy) = burst(s, (n - 1) as nat);
        let (next, t) = acquire_spec(p);
        if t is Some {
            (next, admitted + 1, busy)
        } else {
            (p, admitted, busy + 1)
        }
    }
}

/// Tags are recycled: while a pool has a free tag, acquiring and at once
/// releasing, any number of times, never meets `Busy`, and each round leaves
/// the pool as it was.
pub proof fn law_tags_recycle(s: Seq<bool>, n: nat)
    requires
        !all_held(s),
    ensures
        recycles(s, n),
        release_spec(acquire_spec(s).0, acquire_spec(s).1->0) == s,
    decreases n,
{
    lemma_lowest_free(s);
    let t = lowest_free(s);
    assert(s.update(t, true).update(t, false) =~= s);
    if n > 0 {
        law_tags_recycle(s, (n - 1) as nat);
    }
}

/// A fresh pool of `depth > 0` tags recycles any number of rounds.
pub proof fn law_fresh_pool_recycles(depth: nat, n: nat)
    requires
        depth > 0,
    ensures
        recycles(fresh_pool(depth), n),
{
    assert(!fresh_pool(depth)[0]);
    law_tags_recycle(fresh_pool(depth), n);
}

proof fn lemma_burst_fills(depth: nat, k: nat)
    requires
        k <= depth,
    ensures
        burst(fresh_pool(depth), k).1 == k,
        burst(fresh_pool(depth), k).2 == 0,
        burst(fresh_pool(depth), k).0.len() == depth,
        held_count(burst(fresh_pool(depth), k).0) == k,
    decreases k,
{
    if k == 0 {
        lemma_held_count_bound(fresh_pool(depth));
    } else {
        lemma_burst_fills(depth, (k - 1) as nat);
        let p = burst(fresh_pool(depth), (k - 1) as nat).0;
        lemma_held_count_bound(p);
        lemma_lowest_free(p);
        lemma_held_count_update(p, lowest_free(p), true);
    }
}

/// A burst of `depth + 1` requests on a fresh queue of `depth` tags admits
/// exactly `depth` of them and answers exactly one with `Busy`.
pub proof fn law_burst_one_busy(depth: nat)
    ensures
        burst(fresh_pool(depth), depth + 1).1 == depth,
        burst(fresh_pool(depth), depth + 1).2 == 1,
        all_held(burst(fresh_pool(depth), depth + 1).0),
{
    lemma_burst_fills(depth, depth);
    lemma_held_count_bound(burst(fresh_pool(depth), depth).0);
}

} // verus!
