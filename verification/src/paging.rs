//! Pages of stamps: what a bounded walk through one scope returns, stated
//! over the set of stamps in the scope, and the laws that make cursors
//! resumable.

use vstd::prelude::*;

verus! {

/// `x` lies past `from` for a walk that goes up (`up`) or down.
pub open spec fn beyond(up: bool, from: int, x: int) -> bool {
    if up {
        from < x
    } else {
        x < from
    }
}

/// `m` is the stamp of `s` that a walk meets first after leaving `from`.
pub open spec fn nearest(s: Set<u64>, up: bool, from: int, m: u64) -> bool {
    &&& s.contains(m)
    &&& beyond(up, from, m as int)
    &&& forall|x: u64| s.contains(x) && beyond(up, from, x as int) ==> !beyond(up, x as int, m as int)
}

/// Some stamp of `s` lies past `from`.
pub open spec fn any_beyond(s: Set<u64>, up: bool, from: int) -> bool {
    exists|x: u64| s.contains(x) && beyond(up, from, x as int)
}

/// The stamp that a walk meets first after leaving `from`.
pub open spec fn next_stamp(s: Set<u64>, up: bool, from: int) -> u64 {
    choose|m: u64| nearest(s, up, from, m)
}

/// The first `n` stamps of `s` past `from`, in the order in which the walk
/// meets them; fewer where `s` runs out.
pub open spec fn scan(s: Set<u64>, up: bool, from: int, n: nat) -> Seq<u64>
    decreases n,
{
    if n == 0 || !any_beyond(s, up, from) {
        Seq::empty()
    } else {
        let m = next_stamp(s, up, from);
        seq![m].add(scan(s, up, m as int, (n - 1) as nat))
    }
}

/// Where a walk that returned `page` goes on from: the last stamp it
/// returned, or `from` itself where it returned nothing.
pub open spec fn resume_from(from: int, page: Seq<u64>) -> int {
    if page.len() == 0 {
        from
    } else {
        page.last() as int
    }
}

proof fn lemma_nearest_exists(s: Set<u64>, up: bool, from: int, x: u64)
    requires
        s.contains(x),
        beyond(up, from, x as int),
    ensures
        exists|m: u64| nearest(s, up, from, m),
    decreases
        (if up {
            x - from
        } else {
            from - x
        }),
{
    if !nearest(s, up, from, x) {
        let y = choose|y: u64| s.contains(y) && beyond(up, from, y as int) && beyond(up, y as int, x as int);
        lemma_nearest_exists(s, up, from, y);
    }
}

/// Where a stamp lies past `from`, `next_stamp` is the nearest of them.
pub proof fn lemma_next_stamp(s: Set<u64>, up: bool, from: int)
    requires
        any_beyond(s, up, from),
    ensures
        nearest(s, up, from, next_stamp(s, up, from)),
{
    let x = choose|x: u64| s.contains(x) && beyond(up, from, x as int);
    lemma_nearest_exists(s, up, from, x);
}

/// The nearest stamp is unique, so a walk that has found it knows how the
/// page goes on.
pub proof fn lemma_scan_step(s: Set<u64>, up: bool, from: int, n: nat, m: u64)
    requires
        n > 0,
        nearest(s, up, from, m),
    ensures
        scan(s, up, from, n) == seq![m].add(scan(s, up, m as int, (n - 1) as nat)),
{
    lemma_next_stamp(s, up, from);
    assert(next_stamp(s, up, from) == m);
}

/// A page never holds more stamps than were asked for.
pub proof fn lemma_scan_len(s: Set<u64>, up: bool, from: int, n: nat)
    ensures
        scan(s, up, from, n).len() <= n,
    decreases n,
{
    if n > 0 && any_beyond(s, up, from) {
        lemma_scan_len(s, up, next_stamp(s, up, from) as int, (n - 1) as nat);
    }
}

/// Every stamp of a page belongs to the scope and lies past the start, and
/// the page runs strictly in the direction of the walk: upward pages rise,
/// downward pages fall.
pub proof fn lemma_scan_ordered(s: Set<u64>, up: bool, from: int, n: nat)
    ensures
        forall|i: int|
            0 <= i < scan(s, up, from, n).len() ==> s.contains(#[trigger] scan(s, up, from, n)[i])
                && beyond(up, from, scan(s, up, from, n)[i] as int),
        forall|i: int, j: int|
            0 <= i < j < scan(s, up, from, n).len() ==> beyond(
                up,
                #[trigger] scan(s, up, from, n)[i] as int,
                #[trigger] scan(s, up, from, n)[j] as int,
            ),
    decreases n,
{
    if n > 0 && any_beyond(s, up, from) {
        let m = next_stamp(s, up, from);
        lemma_next_stamp(s, up, from);
        let rest = scan(s, up, m as int, (n - 1) as nat);
        lemma_scan_ordered(s, up, m as int, (n - 1) as nat);
        let page = scan(s, up, from, n);
        assert(page == seq![m].add(rest));
        assert forall|i: int| 0 <= i < page.len() implies s.contains(#[trigger] page[i]) && beyond(
            up,
            from,
            page[i] as int,
        ) by {
            if i > 0 {
                assert(page[i] == rest[i - 1]);
            }
        }
        assert forall|i: int, j: int| 0 <= i < j < page.len() implies beyond(
            up,
            #[trigger] page[i] as int,
            #[trigger] page[j] as int,
        ) by {
            assert(page[j] == rest[j - 1]);
            if i > 0 {
                assert(page[i] == rest[i - 1]);
            }
        }
    }
}

/// A page leaves nothing out: a stamp of the scope past the start is on the
/// page unless the page is full and ends before it.
pub proof fn lemma_scan_gapless(s: Set<u64>, up: bool, from: int, n: nat, x: u64)
    requires
        s.contains(x),
        beyond(up, from, x as int),
    ensures
        scan(s, up, from, n).contains(x) || (scan(s, up, from, n).len() == n && beyond(
            up,
            resume_from(from, scan(s, up, from, n)),
            x as int,
        )),
    decreases n,
{
    if n > 0 {
        let m = next_stamp(s, up, from);
        lemma_next_stamp(s, up, from);
        let rest = scan(s, up, m as int, (n - 1) as nat);
        let page = scan(s, up, from, n);
        assert(page == seq![m].add(rest));
        if x == m {
            assert(page[0] == x);
        } else {
            lemma_scan_gapless(s, up, m as int, (n - 1) as nat, x);
            if rest.contains(x) {
                let i = choose|i: int| 0 <= i < rest.len() && rest[i] == x;
                assert(page[i + 1] == x);
            } else if rest.len() > 0 {
                assert(page.last() == rest.last());
            }
        }
    }
}

/// Reading `a` stamps and then `b` more from where the first page ended
/// gives what one walk of `a + b` stamps gives: nothing twice, nothing
/// skipped.
pub proof fn lemma_scan_resume(s: Set<u64>, up: bool, from: int, a: nat, b: nat)
    ensures
        scan(s, up, from, a + b) == scan(s, up, from, a).add(
            scan(s, up, resume_from(from, scan(s, up, from, a)), b),
        ),
    decreases a,
{
    let first = scan(s, up, from, a);
    let second = scan(s, up, resume_from(from, first), b);
    if a == 0 {
        assert(first.add(second) =~= second);
    } else if !any_beyond(s, up, from) {
        assert(scan(s, up, from, b) =~= Seq::<u64>::empty());
        assert(first.add(second) =~= Seq::<u64>::empty());
    } else {
        let m = next_stamp(s, up, from);
        let rest = scan(s, up, m as int, (a - 1) as nat);
        lemma_scan_resume(s, up, m as int, (a - 1) as nat, b);
        assert(first == seq![m].add(rest));
        assert(resume_from(from, first) == resume_from(m as int, rest)) by {
            if rest.len() > 0 {
                assert(first.last() == rest.last());
            }
        }
        assert(scan(s, up, from, a + b) == seq![m].add(scan(s, up, m as int, (a + b - 1) as nat)));
        assert(seq![m].add(rest.add(second)) =~= seq![m].add(rest).add(second));
    }
}

/// Every stamp of the scope past the start is reached by a long enough walk.
pub proof fn lemma_scan_reaches(s: Set<u64>, up: bool, from: int, x: u64) -> (n: nat)
    requires
        s.contains(x),
        beyond(up, from, x as int),
    ensures
        scan(s, up, from, n).contains(x),
    decreases
        (if up {
            x - from
        } else {
            from - x
        }),
{
    let m = next_stamp(s, up, from);
    lemma_next_stamp(s, up, from);
    if m == x {
        assert(scan(s, up, from, 1)[0] == x);
        1
    } else {
        let k = lemma_scan_reaches(s, up, m as int, x);
        let rest = scan(s, up, m as int, k);
        let i = choose|i: int| 0 <= i < rest.len() && rest[i] == x;
        let page = scan(s, up, from, k + 1);
        assert(page == seq![m].add(rest));
        assert(page[i + 1] == x);
        k + 1
    }
}

/// With nothing past the start, every page is empty.
pub proof fn lemma_scan_exhausted(s: Set<u64>, up: bool, from: int, n: nat)
    requires
        !any_beyond(s, up, from),
    ensures
        scan(s, up, from, n) == Seq::<u64>::empty(),
{
}

} // verus!
