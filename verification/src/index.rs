//! The secondary index: an ordered set of `(scope, stamp)` entries, kept as
//! a strictly sorted vector. The entries of one scope lie side by side in
//! the order of their stamps, so a walk through a scope is a walk along a
//! run of the vector.

use vstd::prelude::*;
use crate::paging::{any_beyond, beyond, nearest, scan, lemma_scan_step};
use crate::query::QueryDirection;
use crate::scope::{
    Entry, QueryBuffer, Scope, entry_lt, scope_lt, lemma_entry_irreflexive, lemma_entry_total,
    lemma_scope_irreflexive, lemma_scope_transitive,
};
use crate::target::Rel;

verus! {

/// Strictly rising in the order on entries: sorted, and nothing twice.
pub open spec fn sorted(s: Seq<Entry>) -> bool {
    forall|i: int, j: int| 0 <= i < j < s.len() ==> entry_lt(#[trigger] s[i], #[trigger] s[j])
}

/// `e` sorts before every entry of `scope` whose stamp is `bound` or more.
pub open spec fn below(e: Entry, scope: Scope, bound: int) -> bool {
    scope_lt(e.0, scope) || (e.0 == scope && e.1 < bound)
}

/// The stamps that `index` lists under `scope`.
pub open spec fn stamps_in(index: Set<Entry>, scope: Scope) -> Set<u64> {
    Set::new(|t: u64| index.contains((scope, t)))
}

/// The entries that occur in `s`.
pub open spec fn entries_of(s: Seq<Entry>) -> Set<Entry> {
    Set::new(|e: Entry| s.contains(e))
}

/// A bound on stamps; `None` lies above every stamp.
pub open spec fn bound_of(bound: Option<u64>) -> int {
    match bound {
        Some(t) => t as int,
        None => u64::MAX as int + 1,
    }
}

/// `p` parts `s` into the entries below `(scope, bound)` and the others.
spec fn cut_at(s: Seq<Entry>, scope: Scope, bound: int, p: int) -> bool {
    &&& 0 <= p <= s.len()
    &&& forall|i: int| 0 <= i < p ==> below(#[trigger] s[i], scope, bound)
    &&& forall|i: int| p <= i < s.len() ==> !below(#[trigger] s[i], scope, bound)
}

/// An upward walk that left from `from`, started at `start` and stands at `i`.
spec fn run_up(s: Seq<Entry>, scope: Scope, from: int, start: int, i: int) -> bool {
    &&& sorted(s)
    &&& cut_at(s, scope, from + 1, start)
    &&& start <= i <= s.len()
    &&& forall|k: int| start <= k < i ==> (#[trigger] s[k]).0 == scope
}

/// The stamp that an upward walk met last, or where it left from.
spec fn last_up(s: Seq<Entry>, from: int, start: int, i: int) -> int {
    if i == start {
        from
    } else {
        s[i - 1].1 as int
    }
}

/// A downward walk that left from `from`, started below `end` and stands at `i`.
spec fn run_down(s: Seq<Entry>, scope: Scope, from: int, end: int, i: int) -> bool {
    &&& sorted(s)
    &&& cut_at(s, scope, from, end)
    &&& 0 <= i <= end
    &&& forall|k: int| i <= k < end ==> (#[trigger] s[k]).0 == scope
}

/// The stamp that a downward walk met last, or where it left from.
spec fn last_down(s: Seq<Entry>, from: int, end: int, i: int) -> int {
    if i == end {
        from
    } else {
        s[i].1 as int
    }
}

proof fn lemma_below_downward(s: Seq<Entry>, scope: Scope, bound: int, i: int, j: int)
    requires
        sorted(s),
        0 <= i <= j < s.len(),
        below(s[j], scope, bound),
    ensures
        below(s[i], scope, bound),
{
    if i < j {
        assert(entry_lt(s[i], s[j]));
        if scope_lt(s[i].0, s[j].0) && scope_lt(s[j].0, scope) {
            lemma_scope_transitive(s[i].0, s[j].0, scope);
        }
    }
}

proof fn lemma_run_up_next(s: Seq<Entry>, scope: Scope, from: int, start: int, i: int)
    requires
        run_up(s, scope, from, start, i),
        i < s.len(),
        s[i].0 == scope,
    ensures
        nearest(stamps_in(entries_of(s), scope), true, last_up(s, from, start, i), s[i].1),
        from <= last_up(s, from, start, i),
{
    let set = stamps_in(entries_of(s), scope);
    let prev = last_up(s, from, start, i);
    let m = s[i].1;
    lemma_scope_irreflexive(scope);
    assert(s[i] == (scope, m));
    assert(s.contains((scope, m)));
    assert(!below(s[i], scope, from + 1));
    if i > start {
        assert(entry_lt(s[i - 1], s[i]));
        assert(!below(s[i - 1], scope, from + 1));
    }
    assert forall|x: u64| set.contains(x) && beyond(true, prev, x as int) implies !beyond(
        true,
        x as int,
        m as int,
    ) by {
        let j = choose|j: int| 0 <= j < s.len() && s[j] == (scope, x);
        if j < start {
            assert(below(s[j], scope, from + 1));
        } else if j < i {
            if j < i - 1 {
                assert(entry_lt(s[j], s[i - 1]));
            }
        } else if j > i {
            assert(entry_lt(s[i], s[j]));
        }
    }
}

proof fn lemma_run_up_end(s: Seq<Entry>, scope: Scope, from: int, start: int, i: int)
    requires
        run_up(s, scope, from, start, i),
        i == s.len() || s[i].0 != scope,
    ensures
        !any_beyond(stamps_in(entries_of(s), scope), true, last_up(s, from, start, i)),
{
    let set = stamps_in(entries_of(s), scope);
    let prev = last_up(s, from, start, i);
    lemma_scope_irreflexive(scope);
    if i > start {
        assert(!below(s[i - 1], scope, from + 1));
    }
    assert forall|x: u64| set.contains(x) implies !beyond(true, prev, x as int) by {
        let j = choose|j: int| 0 <= j < s.len() && s[j] == (scope, x);
        if j < start {
            assert(below(s[j], scope, from + 1));
        } else if j < i {
            if j < i - 1 {
                assert(entry_lt(s[j], s[i - 1]));
            }
        } else {
            assert(!below(s[i], scope, from + 1));
            assert(entry_lt(s[i], s[j]));
        }
    }
}

proof fn lemma_run_down_next(s: Seq<Entry>, scope: Scope, from: int, end: int, i: int)
    requires
        run_down(s, scope, from, end, i),
        i > 0,
        s[i - 1].0 == scope,
    ensures
        nearest(stamps_in(entries_of(s), scope), false, last_down(s, from, end, i), s[i - 1].1),
        last_down(s, from, end, i) <= from,
{
    let set = stamps_in(entries_of(s), scope);
    let prev = last_down(s, from, end, i);
    let m = s[i - 1].1;
    lemma_scope_irreflexive(scope);
    assert(s[i - 1] == (scope, m));
    assert(s.contains((scope, m)));
    assert(below(s[i - 1], scope, from));
    if i < end {
        assert(entry_lt(s[i - 1], s[i]));
        assert(below(s[i], scope, from));
    }
    assert forall|x: u64| set.contains(x) && beyond(false, prev, x as int) implies !beyond(
        false,
        x as int,
        m as int,
    ) by {
        let j = choose|j: int| 0 <= j < s.len() && s[j] == (scope, x);
        if j >= end {
            assert(!below(s[j], scope, from));
        } else if j >= i {
            if j > i {
                assert(entry_lt(s[i], s[j]));
            }
        } else if j < i - 1 {
            assert(entry_lt(s[j], s[i - 1]));
        }
    }
}

proof fn lemma_run_down_end(s: Seq<Entry>, scope: Scope, from: int, end: int, i: int)
    requires
        run_down(s, scope, from, end, i),
        i == 0 || s[i - 1].0 != scope,
    ensures
        !any_beyond(stamps_in(entries_of(s), scope), false, last_down(s, from, end, i)),
{
    let set = stamps_in(entries_of(s), scope);
    let prev = last_down(s, from, end, i);
    lemma_scope_irreflexive(scope);
    if i < end {
        assert(below(s[i], scope, from));
    }
    assert forall|x: u64| set.contains(x) implies !beyond(false, prev, x as int) by {
        let j = choose|j: int| 0 <= j < s.len() && s[j] == (scope, x);
        if j >= end {
            assert(!below(s[j], scope, from));
        } else if j >= i {
            if j > i {
                assert(entry_lt(s[i], s[j]));
            }
        } else {
            assert(below(s[i - 1], scope, from));
            if j < i - 1 {
                assert(entry_lt(s[j], s[i - 1]));
                lemma_scope_transitive(scope, s[i - 1].0, scope);
            }
        }
    }
}

/// An ordered set of `(scope, stamp)` entries.
pub struct ScopeIndex {
    entries: Vec<(QueryBuffer, u64)>,
}

impl View for ScopeIndex {
    type V = Set<Entry>;

    closed spec fn view(&self) -> Set<Entry> {
        entries_of(self.seq())
    }
}

impl ScopeIndex {
    /// The entries in the order in which the vector holds them.
    pub closed spec fn seq(&self) -> Seq<Entry> {
        Seq::new(self.entries@.len(), |i: int| (self.entries@[i].0@, self.entries@[i].1))
    }

    /// The vector is strictly sorted.
    pub closed spec fn wf(&self) -> bool {
        sorted(self.seq())
    }

    /// An index holds finitely many entries.
    pub proof fn lemma_finite(&self)
        ensures
            self@.finite(),
    {
        assert(self@ =~= self.seq().to_set());
    }

    /// An index without entries.
    pub fn new() -> (index: ScopeIndex)
        ensures
            index.wf(),
            index@ == Set::<Entry>::empty(),
    {
        let index = ScopeIndex { entries: Vec::new() };
        assert(index@ =~= Set::<Entry>::empty());
        index
    }

    /// The number of entries.
    pub fn len(&self) -> (n: usize)
        requires
            self.wf(),
        ensures
            n == self@.len(),
    {
        proof {
            let s = self.seq();
            assert forall|i: int, j: int| 0 <= i < s.len() && 0 <= j < s.len() && i != j implies s[i]
                != s[j] by {
                if i < j {
                    assert(entry_lt(s[i], s[j]));
                } else {
                    assert(entry_lt(s[j], s[i]));
                }
                lemma_entry_irreflexive(s[i]);
            }
            s.unique_seq_to_set();
            assert(self@ =~= s.to_set());
        }
        self.entries.len()
    }

    /// Whether `entry` sorts before `(scope, bound)`.
    fn entry_below(entry: &(QueryBuffer, u64), scope: &QueryBuffer, bound: Option<u64>) -> (b: bool)
        ensures
            b == below((entry.0@, entry.1), scope@, bound_of(bound)),
    {
        proof {
            lemma_scope_irreflexive(scope@);
        }
        match entry.0.relate(scope) {
            Rel::Before => true,
            Rel::Same => match bound {
                Some(t) => entry.1 < t,
                None => true,
            },
            Rel::After => {
                proof {
                    if scope_lt(entry.0@, scope@) {
                        lemma_scope_transitive(scope@, entry.0@, scope@);
                    }
                }
                false
            },
        }
    }

    /// The number of entries that sort before `(scope, bound)`, found by
    /// bisection.
    fn rank(&self, scope: &QueryBuffer, bound: Option<u64>) -> (p: usize)
        requires
            self.wf(),
        ensures
            cut_at(self.seq(), scope@, bound_of(bound), p as int),
    {
        let ghost s = self.seq();
        let mut lo: usize = 0;
        let mut hi: usize = self.entries.len();
        while lo < hi
            invariant
                s == self.seq(),
                sorted(s),
                lo <= hi <= s.len(),
                s.len() == self.entries@.len(),
                forall|i: int| 0 <= i < lo ==> below(#[trigger] s[i], scope@, bound_of(bound)),
                forall|i: int| hi <= i < s.len() ==> !below(#[trigger] s[i], scope@, bound_of(bound)),
            decreases hi - lo,
        {
            let mid: usize = lo + (hi - lo) / 2;
            if Self::entry_below(&self.entries[mid], scope, bound) {
                assert forall|i: int| 0 <= i < mid + 1 implies below(
                    #[trigger] s[i],
                    scope@,
                    bound_of(bound),
                ) by {
                    lemma_below_downward(s, scope@, bound_of(bound), i, mid as int);
                }
                lo = mid + 1;
            } else {
                assert forall|i: int| mid <= i < s.len() implies !below(
                    #[trigger] s[i],
                    scope@,
                    bound_of(bound),
                ) by {
                    if below(s[i], scope@, bound_of(bound)) {
                        lemma_below_downward(s, scope@, bound_of(bound), mid as int, i);
                    }
                }
                hi = mid;
            }
        }
        lo
    }

    /// Adds `(scope, stamp)` to the set.
    pub fn insert(&mut self, scope: QueryBuffer, stamp: u64)
        requires
            old(self).wf(),
        ensures
            final(self).wf(),
            final(self)@ == old(self)@.insert((scope@, stamp)),
    {
        let ghost s = self.seq();
        let ghost e: Entry = (scope@, stamp);
        let p = self.rank(&scope, Some(stamp));
        proof {
            lemma_scope_irreflexive(scope@);
        }
        if p < self.entries.len() && self.entries[p].1 == stamp {
            if let Rel::Same = self.entries[p].0.relate(&scope) {
                assert(s[p as int] == e);
                assert(s.contains(e));
                assert(self@ =~= self@.insert(e));
                return ;
            }
        }
        self.entries.insert(p, (scope, stamp));
        proof {
            let t = self.seq();
            assert(t.len() == s.len() + 1);
            assert(t[p as int] == e);
            assert forall|i: int| 0 <= i < t.len() implies #[trigger] t[i] == (if i < p {
                s[i]
            } else if i == p {
                e
            } else {
                s[i - 1]
            }) by {}
            assert forall|i: int| p <= i < s.len() implies entry_lt(e, #[trigger] s[i]) by {
                assert(!below(s[i], e.0, e.1 as int));
                if i > p {
                    assert(entry_lt(s[p as int], s[i]));
                    if s[i] == e {
                        assert(below(s[p as int], e.0, e.1 as int));
                    }
                }
                lemma_entry_total(s[i], e);
            }
            assert forall|i: int, j: int| 0 <= i < j < t.len() implies entry_lt(
                #[trigger] t[i],
                #[trigger] t[j],
            ) by {
                if j < p {
                    assert(entry_lt(s[i], s[j]));
                } else if j == p {
                    assert(below(s[i], e.0, e.1 as int));
                } else if i < p {
                    assert(entry_lt(s[i], s[j - 1]));
                } else if i == p {
                    assert(entry_lt(e, s[j - 1]));
                } else {
                    assert(entry_lt(s[i - 1], s[j - 1]));
                }
            }
            assert forall|x: Entry| entries_of(t).contains(x) <==> entries_of(s).insert(e).contains(
                x,
            ) by {
                if entries_of(t).contains(x) {
                    let i = choose|i: int| 0 <= i < t.len() && t[i] == x;
                    if i < p {
                        assert(s[i] == x);
                    } else if i > p {
                        assert(s[i - 1] == x);
                    }
                }
                if entries_of(s).contains(x) {
                    let i = choose|i: int| 0 <= i < s.len() && s[i] == x;
                    if i < p {
                        assert(t[i] == x);
                    } else {
                        assert(t[i + 1] == x);
                    }
                }
            }
            assert(self@ =~= old(self)@.insert(e));
        }
    }

    /// The page that a walk in `direction` takes out of `scope`.
    pub fn select(&self, scope: &QueryBuffer, direction: QueryDirection, limit: usize) -> (stamps:
        Vec<u64>)
        requires
            self.wf(),
        ensures
            stamps@ == direction.page(stamps_in(self@, scope@), limit as nat),
    {
        match direction {
            QueryDirection::Oldest => self.select_up(scope, Some(0), limit),
            QueryDirection::Later(t) => {
                if t < u64::MAX {
                    self.select_up(scope, Some(t + 1), limit)
                } else {
                    self.select_up(scope, None, limit)
                }
            },
            QueryDirection::Earlier(t) => self.select_down(scope, Some(t), limit),
            QueryDirection::Newest => self.select_down(scope, None, limit),
        }
    }

    /// At most `limit` stamps of `scope` from `first` on, rising.
    fn select_up(&self, scope: &QueryBuffer, first: Option<u64>, limit: usize) -> (stamps: Vec<u64>)
        requires
            self.wf(),
        ensures
            stamps@ == scan(stamps_in(self@, scope@), true, bound_of(first) - 1, limit as nat),
    {
        let ghost s = self.seq();
        let ghost set = stamps_in(self@, scope@);
        let ghost from = bound_of(first) - 1;
        let start = self.rank(scope, first);
        let mut out: Vec<u64> = Vec::new();
        let mut i: usize = start;
        let mut open: bool = true;
        while open && i < self.entries.len() && out.len() < limit
            invariant
                s == self.seq(),
                s.len() == self.entries@.len(),
                set == stamps_in(entries_of(s), scope@),
                run_up(s, scope@, from, start as int, i as int),
                out@.len() <= limit,
                scan(set, true, from, limit as nat) == out@.add(
                    scan(
                        set,
                        true,
                        last_up(s, from, start as int, i as int),
                        (limit - out@.len()) as nat,
                    ),
                ),
                !open ==> i == s.len() || s[i as int].0 != scope@,
            decreases (s.len() - i) + (if open { 1int } else { 0int }),
        {
            let entry = &self.entries[i];
            match entry.0.relate(scope) {
                Rel::Same => {
                    proof {
                        let k = (limit - out@.len()) as nat;
                        let prev = last_up(s, from, start as int, i as int);
                        lemma_run_up_next(s, scope@, from, start as int, i as int);
                        lemma_scan_step(set, true, prev, k, entry.1);
                        let rest = scan(set, true, entry.1 as int, (k - 1) as nat);
                        assert(out@.add(seq![entry.1].add(rest)) =~= out@.push(entry.1).add(rest));
                    }
                    out.push(entry.1);
                    i += 1;
                },
                _ => {
                    open = false;
                },
            }
        }
        proof {
            if out@.len() < limit {
                lemma_run_up_end(s, scope@, from, start as int, i as int);
            }
            assert(out@.add(Seq::<u64>::empty()) =~= out@);
        }
        out
    }

    /// At most `limit` stamps of `scope` below `bound`, falling.
    fn select_down(&self, scope: &QueryBuffer, bound: Option<u64>, limit: usize) -> (stamps: Vec<
        u64,
    >)
        requires
            self.wf(),
        ensures
            stamps@ == scan(stamps_in(self@, scope@), false, bound_of(bound), limit as nat),
    {
        let ghost s = self.seq();
        let ghost set = stamps_in(self@, scope@);
        let ghost from = bound_of(bound);
        let end = self.rank(scope, bound);
        let mut out: Vec<u64> = Vec::new();
        let mut i: usize = end;
        let mut open: bool = true;
        while open && i > 0 && out.len() < limit
            invariant
                s == self.seq(),
                s.len() == self.entries@.len(),
                set == stamps_in(entries_of(s), scope@),
                run_down(s, scope@, from, end as int, i as int),
                end <= s.len(),
                out@.len() <= limit,
                scan(set, false, from, limit as nat) == out@.add(
                    scan(
                        set,
                        false,
                        last_down(s, from, end as int, i as int),
                        (limit - out@.len()) as nat,
                    ),
                ),
                !open ==> i == 0 || s[i - 1].0 != scope@,
            decreases i + (if open { 1int } else { 0int }),
        {
            let entry = &self.entries[i - 1];
            match entry.0.relate(scope) {
                Rel::Same => {
                    proof {
                        let k = (limit - out@.len()) as nat;
                        let prev = last_down(s, from, end as int, i as int);
                        lemma_run_down_next(s, scope@, from, end as int, i as int);
                        lemma_scan_step(set, false, prev, k, entry.1);
                        let rest = scan(set, false, entry.1 as int, (k - 1) as nat);
                        assert(out@.add(seq![entry.1].add(rest)) =~= out@.push(entry.1).add(rest));
                    }
                    out.push(entry.1);
                    i -= 1;
                },
                _ => {
                    open = false;
                },
            }
        }
        proof {
            if out@.len() < limit {
                lemma_run_down_end(s, scope@, from, end as int, i as int);
            }
            assert(out@.add(Seq::<u64>::empty()) =~= out@);
        }
        out
    }
}

} // verus!
