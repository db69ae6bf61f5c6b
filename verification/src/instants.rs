//! A small keyed map from task identifier to an instant in milliseconds,
//! with at most one record per identifier. It serves as the running-task
//! index of both executors (identifier, start instant) and as the
//! notification hub's tracked-deadline set (identifier, deadline).

use vstd::prelude::*;

verus! {

/// Whether the record list holds an entry for `id`.
pub open spec fn has_id(s: Seq<(u32, u64)>, id: u32) -> bool {
    exists|k: int| 0 <= k < s.len() && (#[trigger] s[k]).0 == id
}

/// The recorded instant of `id` (meaningful only when present).
pub open spec fn instant_of(s: Seq<(u32, u64)>, id: u32) -> u64 {
    let k = choose|k: int| 0 <= k < s.len() && (#[trigger] s[k]).0 == id;
    s[k].1
}

/// A record is timed out at `now` when more than `timeout` milliseconds
/// have passed since its start.
pub open spec fn spec_timed_out(start: u64, now: u64, timeout: u64) -> bool {
    now > start + timeout
}

/// A recorded instant is due once `now` has reached it.
pub open spec fn spec_due(at: u64, now: u64) -> bool {
    now >= at
}

/// Mapping from task identifier to one recorded instant.
pub struct InstantMap {
    entries: Vec<(u32, u64)>,
}

impl View for InstantMap {
    type V = Seq<(u32, u64)>;

    closed spec fn view(&self) -> Seq<(u32, u64)> {
        self.entries@
    }
}

impl InstantMap {
    /// At most one record per task identifier.
    pub open spec fn wf(&self) -> bool {
        forall|k1: int, k2: int|
            0 <= k1 < k2 < self@.len() ==> (#[trigger] self@[k1]).0 != (#[trigger] self@[k2]).0
    }

    pub fn new() -> (r: InstantMap)
        ensures
            r.wf(),
            r@ == Seq::<(u32, u64)>::empty(),
    {
        InstantMap { entries: Vec::new() }
    }

    /// Whether `id` is recorded as running.
    pub fn contains(&self, id: u32) -> (r: bool)
        ensures
            r == has_id(self@, id),
    {
        let n = self.entries.len();
        let mut i: usize = 0;
        while i < n
            invariant
                i <= n,
                n == self@.len(),
                self@ == self.entries@,
                forall|j: int| 0 <= j < i ==> (#[trigger] self@[j]).0 != id,
            decreases n - i,
        {
            if self.entries[i].0 == id {
                return true;
            }
            i += 1;
        }
        false
    }

    /// Record `start` for `id`; an existing record for `id` is replaced,
    /// every other record is untouched.
    pub fn insert(&mut self, id: u32, start: u64)
        requires
            old(self).wf(),
        ensures
            final(self).wf(),
            has_id(final(self)@, id),
            instant_of(final(self)@, id) == start,
            forall|x: u32| x != id ==> (has_id(final(self)@, x) <==> has_id(old(self)@, x)),
            forall|x: u32|
                x != id && has_id(old(self)@, x) ==> instant_of(final(self)@, x) == instant_of(
                    old(self)@,
                    x,
                ),
            final(self)@.len() == old(self)@.len() + (if has_id(old(self)@, id) {
                0int
            } else {
                1int
            }),
    {
        let ghost s = self@;
        let n = self.entries.len();
        let mut i: usize = 0;
        while i < n
            invariant
                i <= n,
                n == self@.len(),
                self@ == s,
                s == old(self)@,
                forall|k1: int, k2: int|
                    0 <= k1 < k2 < s.len() ==> (#[trigger] s[k1]).0 != (#[trigger] s[k2]).0,
                forall|j: int| 0 <= j < i ==> (#[trigger] self@[j]).0 != id,
            decreases n - i,
        {
            if self.entries[i].0 == id {
                let ghost k = i as int;
                self.entries.remove(i);
                self.entries.insert(i, (id, start));
                proof {
                    assert(self@ =~= s.update(k, (id, start)));
                    assert(self@[k] == (id, start));
                    lemma_update_keeps_others(s, self@, k, id, start);
                }
                return ;
            }
            i += 1;
        }
        self.entries.push((id, start));
        proof {
            assert(self@ =~= s.push((id, start)));
            assert(self@[s.len() as int] == (id, start));
            assert(!has_id(s, id));
            assert forall|x: u32| x != id implies (has_id(self@, x) <==> has_id(s, x)) by {
                if has_id(self@, x) {
                    let k = choose|k: int| 0 <= k < self@.len() && (#[trigger] self@[k]).0 == x;
                    assert(k < s.len());
                    assert(s[k].0 == x);
                }
                if has_id(s, x) {
                    let k = choose|k: int| 0 <= k < s.len() && (#[trigger] s[k]).0 == x;
                    assert(self@[k].0 == x);
                }
            }
            assert forall|x: u32| x != id && has_id(s, x) implies instant_of(self@, x) == instant_of(
                s,
                x,
            ) by {
                let k1 = choose|k: int| 0 <= k < self@.len() && (#[trigger] self@[k]).0 == x;
                let k2 = choose|k: int| 0 <= k < s.len() && (#[trigger] s[k]).0 == x;
                assert(k1 < s.len());
                assert(self@[k1] == s[k1]);
                assert(s[k1].0 == x && s[k2].0 == x);
                assert(k1 == k2);
            }
            assert(instant_of(self@, id) == start) by {
                let k = choose|k: int| 0 <= k < self@.len() && (#[trigger] self@[k]).0 == id;
                assert(self@[k].0 == id);
                if k < s.len() {
                    assert(s[k].0 == id);
                    assert(false);
                }
            }
        }
    }

    /// Drop the record for `id`; reports whether one was present. Every
    /// other record is untouched.
    pub fn remove(&mut self, id: u32) -> (found: bool)
        requires
            old(self).wf(),
        ensures
            final(self).wf(),
            found == has_id(old(self)@, id),
            !has_id(final(self)@, id),
            forall|x: u32| x != id ==> (has_id(final(self)@, x) <==> has_id(old(self)@, x)),
            forall|x: u32|
                x != id && has_id(old(self)@, x) ==> instant_of(final(self)@, x) == instant_of(
                    old(self)@,
                    x,
                ),
            final(self)@.len() == old(self)@.len() - (if has_id(old(self)@, id) {
                1int
            } else {
                0int
            }),
            !has_id(old(self)@, id) ==> final(self)@ == old(self)@,
    {
        let ghost s = self@;
        let n = self.entries.len();
        let mut i: usize = 0;
        while i < n
            invariant
                i <= n,
                n == self@.len(),
                self@ == s,
                s == old(self)@,
                forall|k1: int, k2: int|
                    0 <= k1 < k2 < s.len() ==> (#[trigger] s[k1]).0 != (#[trigger] s[k2]).0,
                forall|j: int| 0 <= j < i ==> (#[trigger] self@[j]).0 != id,
            decreases n - i,
        {
            if self.entries[i].0 == id {
                let ghost k = i as int;
                self.entries.remove(i);
                proof {
                    assert(self@ == s.remove(k));
                    lemma_remove_keeps_others(s, self@, k, id);
                }
                return true;
            }
            i += 1;
        }
        false
    }

    /// Remove every record older than `timeout` milliseconds at instant
    /// `now`, and report the evicted task identifiers in record order. The
    /// surviving records keep their order.
    pub fn evict_timed_out(&mut self, now: u64, timeout: u64) -> (expired: Vec<u32>)
        requires
            old(self).wf(),
        ensures
            final(self).wf(),
            expired@ == old(self)@.filter(
                |e: (u32, u64)| spec_timed_out(e.1, now, timeout),
            ).map_values(|e: (u32, u64)| e.0),
            final(self)@ == old(self)@.filter(|e: (u32, u64)| !spec_timed_out(e.1, now, timeout)),
    {
        let ghost s = self@;
        let ghost p_out = |e: (u32, u64)| spec_timed_out(e.1, now, timeout);
        let ghost p_keep = |e: (u32, u64)| !spec_timed_out(e.1, now, timeout);
        let mut kept: Vec<(u32, u64)> = Vec::new();
        let mut expired: Vec<u32> = Vec::new();
        let n = self.entries.len();
        let mut i: usize = 0;
        proof {
            assert(s.subrange(0, 0).filter(p_out) =~= Seq::<(u32, u64)>::empty());
            assert(s.subrange(0, 0).filter(p_keep) =~= Seq::<(u32, u64)>::empty());
        }
        while i < n
            invariant
                i <= n,
                n == self@.len(),
                self@ == s,
                self.wf(),
                expired@ == s.subrange(0, i as int).filter(p_out).map_values(
                    |e: (u32, u64)| e.0,
                ),
                kept@ == s.subrange(0, i as int).filter(p_keep),
                p_out == |e: (u32, u64)| spec_timed_out(e.1, now, timeout),
                p_keep == |e: (u32, u64)| !spec_timed_out(e.1, now, timeout),
            decreases n - i,
        {
            let e = self.entries[i];
            proof {
                let pre = s.subrange(0, i as int);
                let one = s.subrange(i as int, i + 1);
                assert(one =~= seq![s[i as int]]);
                assert(pre + one =~= s.subrange(0, i + 1));
                Seq::filter_distributes_over_add(pre, one, p_out);
                Seq::filter_distributes_over_add(pre, one, p_keep);
                lemma_filter_singleton(s[i as int], p_out);
                lemma_filter_singleton(s[i as int], p_keep);
            }
            if now > e.1 && now - e.1 > timeout {
                expired.push(e.0);
                proof {
                    assert(s[i as int] == e);
                    assert(p_out(e));
                    assert(s.subrange(0, i + 1).filter(p_out) =~= s.subrange(0, i as int).filter(
                        p_out,
                    ).push(e));
                    assert(s.subrange(0, i + 1).filter(p_keep) =~= s.subrange(0, i as int).filter(
                        p_keep,
                    ));
                    assert(expired@ =~= s.subrange(0, i + 1).filter(p_out).map_values(
                        |x: (u32, u64)| x.0,
                    ));
                }
            } else {
                kept.push(e);
                proof {
                    assert(s[i as int] == e);
                    assert(!p_out(e));
                    assert(s.subrange(0, i + 1).filter(p_out) =~= s.subrange(0, i as int).filter(
                        p_out,
                    ));
                    assert(s.subrange(0, i + 1).filter(p_keep) =~= s.subrange(0, i as int).filter(
                        p_keep,
                    ).push(e));
                    assert(expired@ =~= s.subrange(0, i + 1).filter(p_out).map_values(
                        |x: (u32, u64)| x.0,
                    ));
                }
            }
            i += 1;
        }
        proof {
            assert(s.subrange(0, n as int) =~= s);
        }
        self.entries = kept;
        proof {
            lemma_filter_keeps_unique_keys(s, p_keep);
        }
        expired
    }
    /// Remove every record whose instant is at or before `now`, and
    /// report the evicted task identifiers in record order. The surviving
    /// records keep their order.
    pub fn evict_due(&mut self, now: u64) -> (due: Vec<u32>)
        requires
            old(self).wf(),
        ensures
            final(self).wf(),
            due@ == old(self)@.filter(
                |e: (u32, u64)| spec_due(e.1, now),
            ).map_values(|e: (u32, u64)| e.0),
            final(self)@ == old(self)@.filter(|e: (u32, u64)| !spec_due(e.1, now)),
    {
        let ghost s = self@;
        let ghost p_out = |e: (u32, u64)| spec_due(e.1, now);
        let ghost p_keep = |e: (u32, u64)| !spec_due(e.1, now);
        let mut kept: Vec<(u32, u64)> = Vec::new();
        let mut due: Vec<u32> = Vec::new();
        let n = self.entries.len();
        let mut i: usize = 0;
        proof {
            assert(s.subrange(0, 0).filter(p_out) =~= Seq::<(u32, u64)>::empty());
            assert(s.subrange(0, 0).filter(p_keep) =~= Seq::<(u32, u64)>::empty());
        }
        while i < n
            invariant
                i <= n,
                n == self@.len(),
                self@ == s,
                self.wf(),
                due@ == s.subrange(0, i as int).filter(p_out).map_values(
                    |e: (u32, u64)| e.0,
                ),
                kept@ == s.subrange(0, i as int).filter(p_keep),
                p_out == |e: (u32, u64)| spec_due(e.1, now),
                p_keep == |e: (u32, u64)| !spec_due(e.1, now),
            decreases n - i,
        {
            let e = self.entries[i];
            proof {
                let pre = s.subrange(0, i as int);
                let one = s.subrange(i as int, i + 1);
                assert(one =~= seq![s[i as int]]);
                assert(pre + one =~= s.subrange(0, i + 1));
                Seq::filter_distributes_over_add(pre, one, p_out);
                Seq::filter_distributes_over_add(pre, one, p_keep);
                lemma_filter_singleton(s[i as int], p_out);
                lemma_filter_singleton(s[i as int], p_keep);
            }
            if e.1 <= now {
                due.push(e.0);
                proof {
                    assert(s[i as int] == e);
                    assert(p_out(e));
                    assert(s.subrange(0, i + 1).filter(p_out) =~= s.subrange(0, i as int).filter(
                        p_out,
                    ).push(e));
                    assert(s.subrange(0, i + 1).filter(p_keep) =~= s.subrange(0, i as int).filter(
                        p_keep,
                    ));
                    assert(due@ =~= s.subrange(0, i + 1).filter(p_out).map_values(
                        |x: (u32, u64)| x.0,
                    ));
                }
            } else {
                kept.push(e);
                proof {
                    assert(s[i as int] == e);
                    assert(!p_out(e));
                    assert(s.subrange(0, i + 1).filter(p_out) =~= s.subrange(0, i as int).filter(
                        p_out,
                    ));
                    assert(s.subrange(0, i + 1).filter(p_keep) =~= s.subrange(0, i as int).filter(
                        p_keep,
                    ).push(e));
                    assert(due@ =~= s.subrange(0, i + 1).filter(p_out).map_values(
                        |x: (u32, u64)| x.0,
                    ));
                }
            }
            i += 1;
        }
        proof {
            assert(s.subrange(0, n as int) =~= s);
        }
        self.entries = kept;
        proof {
            lemma_filter_keeps_unique_keys(s, p_keep);
        }
        due
    }
}

/// Filtering a singleton keeps it exactly when the predicate holds.
pub(crate) proof fn lemma_filter_singleton<A>(e: A, p: spec_fn(A) -> bool)
    ensures
        seq![e].filter(p) == if p(e) {
            seq![e]
        } else {
            Seq::<A>::empty()
        },
{
    reveal_with_fuel(Seq::filter, 2);
    assert(seq![e].drop_last() =~= Seq::<A>::empty());
    if p(e) {
        assert(seq![e].filter(p) =~= seq![e]);
    } else {
        assert(seq![e].filter(p) =~= Seq::<A>::empty());
    }
}

/// A filtered record list keeps its keys unique.
pub(crate) proof fn lemma_filter_keeps_unique_keys(s: Seq<(u32, u64)>, p: spec_fn((u32, u64)) -> bool)
    requires
        forall|k1: int, k2: int|
            0 <= k1 < k2 < s.len() ==> (#[trigger] s[k1]).0 != (#[trigger] s[k2]).0,
    ensures
        forall|k1: int, k2: int|
            0 <= k1 < k2 < s.filter(p).len() ==> (#[trigger] s.filter(p)[k1]).0 != (
            #[trigger] s.filter(p)[k2]).0,
    decreases s.len(),
{
    reveal(Seq::filter);
    if s.len() > 0 {
        let rest = s.drop_last();
        lemma_filter_keeps_unique_keys(rest, p);
        let f = s.filter(p);
        let fr = rest.filter(p);
        rest.lemma_filter_len(p);
        assert forall|k1: int, k2: int|
            0 <= k1 < k2 < f.len() implies (#[trigger] f[k1]).0 != (#[trigger] f[k2]).0 by {
            if p(s.last()) {
                assert(f == fr.push(s.last()));
                if k2 < fr.len() {
                    assert(f[k1] == fr[k1] && f[k2] == fr[k2]);
                } else {
                    assert(f[k2] == s.last());
                    assert(f[k1] == fr[k1]);
                    assert(fr.contains(fr[k1]));
                    lemma_filter_element_of(rest, p, k1);
                    let j = choose|j: int| 0 <= j < rest.len() && rest[j] == fr[k1];
                    assert(s[j] == fr[k1]);
                    assert(s[s.len() - 1] == s.last());
                    assert(s[j].0 != s.last().0);
                }
            } else {
                assert(f == fr);
            }
        }
    }
}

/// Every element of a filtered sequence occurs in the original.
pub(crate) proof fn lemma_filter_element_of<A>(s: Seq<A>, p: spec_fn(A) -> bool, k: int)
    requires
        0 <= k < s.filter(p).len(),
    ensures
        exists|j: int| 0 <= j < s.len() && s[j] == s.filter(p)[k],
    decreases s.len(),
{
    reveal(Seq::filter);
    if s.len() > 0 {
        let rest = s.drop_last();
        let fr = rest.filter(p);
        if p(s.last()) && k == s.filter(p).len() - 1 {
            assert(s[s.len() - 1] == s.filter(p)[k]);
        } else {
            assert(s.filter(p)[k] == fr[k]);
            lemma_filter_element_of(rest, p, k);
            let j = choose|j: int| 0 <= j < rest.len() && rest[j] == fr[k];
            assert(s[j] == s.filter(p)[k]);
        }
    }
}

/// Updating one record in place keeps every other identifier's record.
proof fn lemma_update_keeps_others(s: Seq<(u32, u64)>, t: Seq<(u32, u64)>, k: int, id: u32, start: u64)
    requires
        forall|k1: int, k2: int|
            0 <= k1 < k2 < s.len() ==> (#[trigger] s[k1]).0 != (#[trigger] s[k2]).0,
        0 <= k < s.len(),
        s[k].0 == id,
        t == s.update(k, (id, start)),
    ensures
        forall|k1: int, k2: int|
            0 <= k1 < k2 < t.len() ==> (#[trigger] t[k1]).0 != (#[trigger] t[k2]).0,
        has_id(t, id),
        instant_of(t, id) == start,
        forall|x: u32| x != id ==> (has_id(t, x) <==> has_id(s, x)),
        forall|x: u32| x != id && has_id(s, x) ==> instant_of(t, x) == instant_of(s, x),
        t.len() == s.len(),
{
    assert forall|k1: int, k2: int|
        0 <= k1 < k2 < t.len() implies (#[trigger] t[k1]).0 != (#[trigger] t[k2]).0 by {
        assert(t[k1].0 == s[k1].0 && t[k2].0 == s[k2].0);
    }
    assert(t[k].0 == id);
    assert(has_id(t, id));
    assert(instant_of(t, id) == start) by {
        let k1 = choose|k1: int| 0 <= k1 < t.len() && (#[trigger] t[k1]).0 == id;
        assert(t[k1].0 == id && t[k].0 == id);
        if k1 != k {
            assert(s[k1].0 == id && s[k].0 == id);
            assert(false);
        }
    }
    assert forall|x: u32| x != id implies (has_id(t, x) <==> has_id(s, x)) by {
        if has_id(t, x) {
            let k1 = choose|k1: int| 0 <= k1 < t.len() && (#[trigger] t[k1]).0 == x;
            assert(k1 != k);
            assert(s[k1].0 == x);
        }
        if has_id(s, x) {
            let k1 = choose|k1: int| 0 <= k1 < s.len() && (#[trigger] s[k1]).0 == x;
            assert(k1 != k);
            assert(t[k1].0 == x);
        }
    }
    assert forall|x: u32| x != id && has_id(s, x) implies instant_of(t, x) == instant_of(s, x) by {
        let k1 = choose|k1: int| 0 <= k1 < t.len() && (#[trigger] t[k1]).0 == x;
        let k2 = choose|k2: int| 0 <= k2 < s.len() && (#[trigger] s[k2]).0 == x;
        assert(k1 != k);
        assert(s[k1].0 == x);
        assert(k1 == k2);
    }
}

/// Removing one record keeps every other identifier's record.
proof fn lemma_remove_keeps_others(s: Seq<(u32, u64)>, t: Seq<(u32, u64)>, k: int, id: u32)
    requires
        forall|k1: int, k2: int|
            0 <= k1 < k2 < s.len() ==> (#[trigger] s[k1]).0 != (#[trigger] s[k2]).0,
        0 <= k < s.len(),
        s[k].0 == id,
        t == s.remove(k),
    ensures
        forall|k1: int, k2: int|
            0 <= k1 < k2 < t.len() ==> (#[trigger] t[k1]).0 != (#[trigger] t[k2]).0,
        !has_id(t, id),
        forall|x: u32| x != id ==> (has_id(t, x) <==> has_id(s, x)),
        forall|x: u32| x != id && has_id(s, x) ==> instant_of(t, x) == instant_of(s, x),
        t.len() == s.len() - 1,
{
    let lift = |k1: int| if k1 < k {
        k1
    } else {
        k1 + 1
    };
    assert forall|k1: int| 0 <= k1 < t.len() implies t[k1] == s[lift(k1)] by {}
    assert forall|k1: int, k2: int|
        0 <= k1 < k2 < t.len() implies (#[trigger] t[k1]).0 != (#[trigger] t[k2]).0 by {
        assert(t[k1] == s[lift(k1)] && t[k2] == s[lift(k2)]);
        assert(lift(k1) < lift(k2));
    }
    assert(!has_id(t, id)) by {
        if has_id(t, id) {
            let k1 = choose|k1: int| 0 <= k1 < t.len() && (#[trigger] t[k1]).0 == id;
            assert(t[k1] == s[lift(k1)]);
            assert(lift(k1) != k);
            assert(s[lift(k1)].0 == id && s[k].0 == id);
            assert(false);
        }
    }
    assert forall|x: u32| x != id implies (has_id(t, x) <==> has_id(s, x)) by {
        if has_id(t, x) {
            let k1 = choose|k1: int| 0 <= k1 < t.len() && (#[trigger] t[k1]).0 == x;
            assert(t[k1] == s[lift(k1)]);
            assert(s[lift(k1)].0 == x);
        }
        if has_id(s, x) {
            let k1 = choose|k1: int| 0 <= k1 < s.len() && (#[trigger] s[k1]).0 == x;
            assert(k1 != k);
            if k1 < k {
                assert(t[k1] == s[k1]);
            } else {
                assert(t[k1 - 1] == s[k1]);
            }
        }
    }
    assert forall|x: u32| x != id && has_id(s, x) implies instant_of(t, x) == instant_of(s, x) by {
        let k1 = choose|k1: int| 0 <= k1 < t.len() && (#[trigger] t[k1]).0 == x;
        let k2 = choose|k2: int| 0 <= k2 < s.len() && (#[trigger] s[k2]).0 == x;
        assert(t[k1] == s[lift(k1)]);
        assert(s[lift(k1)].0 == x);
        assert(lift(k1) == k2);
    }
}

} // verus!
