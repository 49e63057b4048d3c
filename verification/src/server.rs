//! The store: records under their stamps, and the index of the scopes that
//! each record belongs to.

use std::collections::BTreeMap;
use vstd::prelude::*;
use vstd::set_lib::{lemma_map_size, lemma_set_disjoint_lens};
use crate::clock::{steady_nanos, tick, tick_after};
use crate::index::{ScopeIndex, stamps_in};
use crate::paging::lemma_scan_reaches;
use crate::query::{Query, QueryDirection, QueryError, QueryResult, QueryView};
use crate::scope::{Entry, QueryBuffer, Scope};
use crate::target::BufferTarget;

verus! {

/// Whether a record addressed to `targets` belongs to `scope`.
pub open spec fn selects(scope: Scope, targets: Set<Seq<u8>>) -> bool {
    match scope {
        Scope::Any => true,
        Scope::Server => forall|k: Seq<u8>| !targets.contains(k),
        Scope::Target(key) => targets.contains(key),
    }
}

/// The keys that occur in `targets`.
pub open spec fn keys_of(targets: Seq<BufferTarget>) -> Set<Seq<u8>> {
    Set::new(|k: Seq<u8>| exists|i: int| 0 <= i < targets.len() && (#[trigger] targets[i])@ == k)
}

/// The index entries of one record: one for each scope that it belongs to.
pub open spec fn entries_for(stamp: u64, targets: Set<Seq<u8>>) -> Set<Entry> {
    Set::new(|e: Entry| e.1 == stamp && selects(e.0, targets))
}

/// What a store holds: the records by stamp, and the set of index entries.
pub struct StoreState<M> {
    pub records: Map<u64, M>,
    pub index: Set<Entry>,
}

impl<M> StoreState<M> {
    /// The stamps of the records that belong to `scope`.
    pub open spec fn scope(self, scope: Scope) -> Set<u64> {
        stamps_in(self.index, scope)
    }

    /// The keys that the record at `stamp` is addressed to.
    pub open spec fn targets_of(self, stamp: u64) -> Set<Seq<u8>> {
        Set::new(|k: Seq<u8>| self.index.contains((Scope::Target(k), stamp)))
    }

    /// The index lists stored records only, and lists each stored record
    /// under every scope that it belongs to.
    pub open spec fn wf(self) -> bool {
        &&& forall|e: Entry| #[trigger] self.index.contains(e) ==> self.records.dom().contains(e.1)
        &&& forall|t: u64, scope: Scope|
            self.records.dom().contains(t) ==> (#[trigger] self.index.contains((scope, t))
                <==> selects(scope, self.targets_of(t)))
    }

    /// `stamp` lies past every stamp in the store.
    pub open spec fn all_before(self, stamp: u64) -> bool {
        forall|t: u64| self.records.dom().contains(t) ==> t < stamp
    }

    /// `stamp` is the newest stamp in the store.
    pub open spec fn is_newest(self, stamp: u64) -> bool {
        &&& self.records.dom().contains(stamp)
        &&& forall|t: u64| self.records.dom().contains(t) ==> t <= stamp
    }

    /// The newest stamp in the store, if it holds a record.
    pub open spec fn newest(self) -> Option<u64> {
        if exists|l: u64| self.is_newest(l) {
            Some(choose|l: u64| self.is_newest(l))
        } else {
            None
        }
    }

    /// The store after it took in `msg` under `stamp`, addressed to `targets`.
    pub open spec fn ingest(self, stamp: u64, msg: M, targets: Set<Seq<u8>>) -> StoreState<M> {
        StoreState {
            records: self.records.insert(stamp, msg),
            index: self.index.union(entries_for(stamp, targets)),
        }
    }

    /// The stamps that `query` returns for `limit`, in the order of the walk.
    pub open spec fn answer(self, query: QueryView, limit: nat) -> Seq<u64> {
        query.direction.page(self.scope(query.scope), limit)
    }
}

/// Why a record was not taken in.
#[derive(Clone, Copy, Debug, PartialEq, Eq, Structural)]
pub enum IngestError {
    /// The newest stamp is the last one: no later stamp exists.
    StampsExhausted,
}

/// A store of records of type `M`.
pub struct Server<M> {
    sub_buffers: ScopeIndex,
    buffer: BTreeMap<u64, M>,
    latest: Option<u64>,
}

impl<M> View for Server<M> {
    type V = StoreState<M>;

    closed spec fn view(&self) -> StoreState<M> {
        StoreState { records: self.buffer@, index: self.sub_buffers@ }
    }
}

impl<M> Server<M> {
    /// The index is in order and agrees with the records.
    pub closed spec fn wf(&self) -> bool {
        &&& self.sub_buffers.wf()
        &&& self@.wf()
        &&& match self.latest {
            Some(l) => self@.is_newest(l),
            None => forall|t: u64| !self.buffer@.dom().contains(t),
        }
    }

    /// In a well-formed store the index and the records agree, and both
    /// are finite.
    pub proof fn lemma_wf(&self)
        requires
            self.wf(),
        ensures
            self@.wf(),
            self@.index.finite(),
            self@.records.dom().finite(),
    {
        self.sub_buffers.lemma_finite();
    }

    /// An empty store.
    pub fn new() -> (server: Server<M>)
        ensures
            server.wf(),
            server@.records == Map::<u64, M>::empty(),
            server@.index == Set::<Entry>::empty(),
    {
        Server { sub_buffers: ScopeIndex::new(), buffer: BTreeMap::new(), latest: None }
    }

    /// The newest stamp in the store.
    pub fn latest(&self) -> (stamp: Option<u64>)
        requires
            self.wf(),
        ensures
            stamp == self@.newest(),
    {
        proof {
            match self.latest {
                Some(l) => {
                    let c = choose|c: u64| self@.is_newest(c);
                    assert(self@.is_newest(c));
                },
                None => {},
            }
        }
        self.latest
    }

    /// Takes in `msg`, addressed to `targets`, at clock reading `now`. The
    /// record gets the stamp `tick_after` makes of the reading, and an index
    /// entry under every scope that it belongs to. Where no stamp is left,
    /// the store stays as it is.
    pub fn add_irc_msg_at(&mut self, now: u64, msg: M, targets: Vec<BufferTarget>) -> (r: Result<
        u64,
        IngestError,
    >)
        requires
            old(self).wf(),
        ensures
            final(self).wf(),
            match tick_after(old(self)@.newest(), now) {
                Some(stamp) => r == Ok::<u64, IngestError>(stamp) && old(self)@.all_before(stamp)
                    && final(self)@ == old(self)@.ingest(stamp, msg, keys_of(targets@)),
                None => r == Err::<u64, IngestError>(IngestError::StampsExhausted) && final(self)@
                    == old(self)@,
            },
    {
        let newest = self.latest();
        let stamp = match tick(newest, now) {
            Some(stamp) => stamp,
            None => {
                return Err(IngestError::StampsExhausted);
            },
        };
        let ghost before = self@;
        let ghost keys = keys_of(targets@);
        proof {
            assert(before.all_before(stamp));
            lemma_ingest_wf(before, stamp, msg, keys);
        }
        self.buffer.insert(stamp, msg);
        self.latest = Some(stamp);
        self.sub_buffers.insert(QueryBuffer::Any, stamp);
        if targets.len() == 0 {
            self.sub_buffers.insert(QueryBuffer::Server, stamp);
        } else {
            let mut i: usize = 0;
            while i < targets.len()
                invariant
                    i <= targets.len(),
                    self.sub_buffers.wf(),
                    self.sub_buffers@ == before.index.union(entries_upto(stamp, targets@, i as int)),
                    self.buffer@ == before.records.insert(stamp, msg),
                    self.latest == Some(stamp),
                decreases targets.len() - i,
            {
                let key = targets[i].clone();
                self.sub_buffers.insert(QueryBuffer::Target(key), stamp);
                proof {
                    let grown = entries_upto(stamp, targets@, i + 1);
                    let e: Entry = (Scope::Target(targets@[i as int]@), stamp);
                    assert(grown =~= entries_upto(stamp, targets@, i as int).insert(e));
                    assert(self.sub_buffers@ =~= before.index.union(grown));
                }
                i += 1;
            }
        }
        proof {
            let added = entries_for(stamp, keys);
            if targets@.len() == 0 {
                assert(added =~= Set::<Entry>::empty().insert((Scope::Any, stamp)).insert(
                    (Scope::Server, stamp),
                ));
            } else {
                assert(keys.contains(targets@[0]@));
                assert(added =~= entries_upto(stamp, targets@, targets@.len() as int));
            }
            assert(self.sub_buffers@ =~= before.index.union(added));
            assert(self@ == before.ingest(stamp, msg, keys));
            assert(self@.is_newest(stamp));
        }
        Ok(stamp)
    }

    /// Takes in `msg`, addressed to `targets`, at the steady clock's present
    /// reading. Whatever the clock reads, the record's stamp lies past every
    /// stamp in the store.
    pub fn add_irc_msg(&mut self, msg: M, targets: Vec<BufferTarget>) -> (r: Result<
        u64,
        IngestError,
    >)
        requires
            old(self).wf(),
        ensures
            final(self).wf(),
            match r {
                Ok(stamp) => old(self)@.newest() != Some(u64::MAX) && old(self)@.all_before(stamp)
                    && final(self)@ == old(self)@.ingest(stamp, msg, keys_of(targets@)),
                Err(e) => e == IngestError::StampsExhausted && old(self)@.newest() == Some(u64::MAX)
                    && final(self)@ == old(self)@,
            },
    {
        let now = steady_nanos();
        self.add_irc_msg_at(now, msg, targets)
    }
}

impl<M: Clone> Server<M> {
    /// Answers `query` with at most `limit` records of its scope, in the
    /// order of the walk, each a clone of the stored record, and with the
    /// query that continues the walk. A limit of zero is refused.
    pub fn query(&self, query: Query, limit: u8) -> (r: Result<QueryResult<M>, QueryError>)
        requires
            self.wf(),
        ensures
            match r {
                Ok(result) => {
                    let stamps = self@.answer(query@, limit as nat);
                    &&& limit > 0
                    &&& result@.next == query@.follow(stamps)
                    &&& result@.messages.len() == stamps.len()
                    &&& result@.messages.len() <= limit
                    &&& forall|i: int|
                        0 <= i < stamps.len() ==> self@.records.dom().contains(#[trigger] stamps[i])
                            && selects(query@.scope, self@.targets_of(stamps[i])) && cloned(
                            self@.records[stamps[i]],
                            result@.messages[i],
                        )
                    &&& forall|i: int, j: int|
                        0 <= i < j < stamps.len() ==> if query@.direction.ascending() {
                            (#[trigger] stamps[i]) < #[trigger] stamps[j]
                        } else {
                            (#[trigger] stamps[i]) > #[trigger] stamps[j]
                        }
                },
                Err(e) => limit == 0 && e == QueryError::ZeroLimit,
            },
    {
        if limit == 0 {
            return Err(QueryError::ZeroLimit);
        }
        let direction = query.direction();
        let stamps = self.sub_buffers.select(query.buffer(), direction, limit as usize);
        proof {
            direction.lemma_page_ordered(self@.scope(query@.scope), limit as nat);
            assert forall|i: int| 0 <= i < stamps@.len() implies self.buffer@.contains_key(
                #[trigger] stamps@[i],
            ) by {
                assert(self@.scope(query@.scope).contains(stamps@[i]));
                assert(self@.index.contains((query@.scope, stamps@[i])));
            }
            assert forall|i: int| 0 <= i < stamps@.len() implies selects(
                query@.scope,
                self@.targets_of(#[trigger] stamps@[i]),
            ) by {
                lemma_scope_holds_selected(self@, query@.scope, stamps@[i]);
            }
        }
        let (next, messages) = match query_helper(&stamps, &self.buffer) {
            Ok(Some((last, messages))) => {
                let next = match direction {
                    QueryDirection::Oldest => query.later(last),
                    QueryDirection::Later(_) => query.later(last),
                    QueryDirection::Earlier(_) => query.earlier(last),
                    QueryDirection::Newest => query.earlier(last),
                };
                (next, messages)
            },
            Ok(None) => (query, Vec::new()),
            Err(e) => {
                return Err(e);
            },
        };
        Ok(QueryResult::new(next, messages))
    }
}

/// Looks each of `stamps` up in `buffer` and clones what it finds, in the
/// order of `stamps`, and names the last stamp beside the clones. A stamp
/// without a record is a fault of the store and ends the lookup.
pub fn query_helper<M: Clone>(stamps: &Vec<u64>, buffer: &BTreeMap<u64, M>) -> (r: Result<
    Option<(u64, Vec<M>)>,
    QueryError,
>)
    ensures
        match r {
            Ok(None) => stamps@.len() == 0,
            Ok(Some((last, messages))) => {
                &&& stamps@.len() > 0
                &&& last == stamps@.last()
                &&& messages@.len() == stamps@.len()
                &&& forall|i: int|
                    0 <= i < stamps@.len() ==> buffer@.contains_key(#[trigger] stamps@[i]) && cloned(
                        buffer@[stamps@[i]],
                        messages@[i],
                    )
            },
            Err(e) => e == QueryError::MissingRecord && exists|i: int|
                0 <= i < stamps@.len() && !buffer@.contains_key(#[trigger] stamps@[i]),
        },
{
    let mut last_key: Option<u64> = None;
    let mut results: Vec<M> = Vec::new();
    let mut i: usize = 0;
    while i < stamps.len()
        invariant
            i <= stamps.len(),
            results@.len() == i,
            last_key == if i == 0 {
                None::<u64>
            } else {
                Some(stamps@[i - 1])
            },
            forall|j: int|
                0 <= j < i ==> buffer@.contains_key(#[trigger] stamps@[j]) && cloned(
                    buffer@[stamps@[j]],
                    results@[j],
                ),
        decreases stamps.len() - i,
    {
        let when = stamps[i];
        match buffer.get(&when) {
            Some(msg) => {
                results.push(msg.clone());
            },
            None => {
                assert(!buffer@.contains_key(stamps@[i as int]));
                return Err(QueryError::MissingRecord);
            },
        }
        last_key = Some(when);
        i += 1;
    }
    match last_key {
        Some(last) => Ok(Some((last, results))),
        None => Ok(None),
    }
}

/// The entries that the first `i` of `targets` have brought into the index,
/// with the entry under `Any`.
spec fn entries_upto(stamp: u64, targets: Seq<BufferTarget>, i: int) -> Set<Entry> {
    Set::new(
        |e: Entry|
            e.1 == stamp && (e.0 == Scope::Any || exists|j: int|
                0 <= j < i && e.0 == Scope::Target((#[trigger] targets[j])@)),
    )
}

/// Taking in a record under a stamp that the store does not hold keeps the
/// index and the records in agreement.
pub proof fn lemma_ingest_wf<M>(store: StoreState<M>, stamp: u64, msg: M, targets: Set<Seq<u8>>)
    requires
        store.wf(),
        !store.records.dom().contains(stamp),
    ensures
        store.ingest(stamp, msg, targets).wf(),
        store.ingest(stamp, msg, targets).targets_of(stamp) == targets,
{
    let after = store.ingest(stamp, msg, targets);
    assert(after.targets_of(stamp) =~= targets) by {
        assert forall|k: Seq<u8>| after.targets_of(stamp).contains(k) <==> targets.contains(k) by {
            let e: Entry = (Scope::Target(k), stamp);
            assert(entries_for(stamp, targets).contains(e) <==> targets.contains(k));
            assert(store.index.contains(e) ==> store.records.dom().contains(e.1));
        }
    }
    assert forall|t: u64, scope: Scope| after.records.dom().contains(t) implies (
    #[trigger] after.index.contains((scope, t)) <==> selects(scope, after.targets_of(t))) by {
        let e: Entry = (scope, t);
        if t == stamp {
            assert(store.index.contains(e) ==> store.records.dom().contains(e.1));
            assert(entries_for(stamp, targets).contains(e) <==> selects(scope, targets));
        } else {
            assert(!entries_for(stamp, targets).contains(e));
            assert(after.targets_of(t) =~= store.targets_of(t)) by {
                assert forall|k: Seq<u8>|
                    after.targets_of(t).contains(k) <==> store.targets_of(t).contains(k) by {
                    let f: Entry = (Scope::Target(k), t);
                    assert(!entries_for(stamp, targets).contains(f));
                }
            }
            assert(store.index.contains((scope, t)) <==> selects(scope, store.targets_of(t)));
        }
    }
}

/// The scope `Any` holds every record.
pub proof fn lemma_any_holds_all<M>(store: StoreState<M>)
    requires
        store.wf(),
    ensures
        store.scope(Scope::Any) == store.records.dom(),
{
    assert forall|t: u64| store.scope(Scope::Any).contains(t) <==> store.records.dom().contains(
        t,
    ) by {
        let e: Entry = (Scope::Any, t);
        assert(store.index.contains(e) ==> store.records.dom().contains(e.1));
    }
    assert(store.scope(Scope::Any) =~= store.records.dom());
}

/// The scope `Server` holds exactly the records addressed to no target.
pub proof fn lemma_server_holds_untargeted<M>(store: StoreState<M>, stamp: u64)
    requires
        store.wf(),
    ensures
        store.scope(Scope::Server).contains(stamp) <==> store.records.dom().contains(stamp)
            && forall|k: Seq<u8>| !store.targets_of(stamp).contains(k),
{
    let e: Entry = (Scope::Server, stamp);
    assert(store.index.contains(e) ==> store.records.dom().contains(e.1));
}

/// A scope holds exactly the records that belong to it.
pub proof fn lemma_scope_holds_selected<M>(store: StoreState<M>, scope: Scope, stamp: u64)
    requires
        store.wf(),
    ensures
        store.scope(scope).contains(stamp) <==> store.records.dom().contains(stamp) && selects(
            scope,
            store.targets_of(stamp),
        ),
{
    let e: Entry = (scope, stamp);
    assert(store.index.contains(e) ==> store.records.dom().contains(e.1));
}

/// Taking in a record adds its stamp to the scopes that it belongs to and
/// leaves every other scope as it was.
pub proof fn lemma_ingest_scopes<M>(
    store: StoreState<M>,
    stamp: u64,
    msg: M,
    targets: Set<Seq<u8>>,
    scope: Scope,
)
    ensures
        store.ingest(stamp, msg, targets).scope(scope) == if selects(scope, targets) {
            store.scope(scope).insert(stamp)
        } else {
            store.scope(scope)
        },
{
    let after = store.ingest(stamp, msg, targets);
    let expected = if selects(scope, targets) {
        store.scope(scope).insert(stamp)
    } else {
        store.scope(scope)
    };
    assert forall|t: u64| after.scope(scope).contains(t) <==> expected.contains(t) by {
        let e: Entry = (scope, t);
        assert(entries_for(stamp, targets).contains(e) <==> t == stamp && selects(scope, targets));
    }
    assert(after.scope(scope) =~= expected);
}

/// Every stamp that a query returns is that of a stored record of the
/// query's scope.
pub proof fn lemma_answer_within_scope<M>(store: StoreState<M>, query: QueryView, limit: nat, i: int)
    requires
        store.wf(),
        0 <= i < store.answer(query, limit).len(),
    ensures
        store.records.dom().contains(store.answer(query, limit)[i]),
        selects(query.scope, store.targets_of(store.answer(query, limit)[i])),
{
    query.direction.lemma_page_ordered(store.scope(query.scope), limit);
    lemma_scope_holds_selected(store, query.scope, store.answer(query, limit)[i]);
}

/// Every record of a scope is returned by a walk from `Oldest` that is long
/// enough.
pub proof fn lemma_record_reached<M>(store: StoreState<M>, scope: Scope, stamp: u64) -> (limit: nat)
    requires
        store.wf(),
        store.records.dom().contains(stamp),
        selects(scope, store.targets_of(stamp)),
    ensures
        store.answer(QueryView { scope, direction: QueryDirection::Oldest }, limit).contains(stamp),
{
    lemma_scope_holds_selected(store, scope, stamp);
    lemma_scan_reaches(store.scope(scope), true, -1, stamp)
}

/// Scope partitioning: a record taken in with the keys `targets` is reached
/// by the queries of every scope that it belongs to.
pub proof fn lemma_ingested_is_reached<M>(
    store: StoreState<M>,
    stamp: u64,
    msg: M,
    targets: Set<Seq<u8>>,
    scope: Scope,
) -> (limit: nat)
    requires
        store.wf(),
        !store.records.dom().contains(stamp),
        selects(scope, targets),
    ensures
        store.ingest(stamp, msg, targets).answer(
            QueryView { scope, direction: QueryDirection::Oldest },
            limit,
        ).contains(stamp),
{
    lemma_ingest_wf(store, stamp, msg, targets);
    lemma_record_reached(store.ingest(stamp, msg, targets), scope, stamp)
}

/// Scope partitioning: a record taken in with the keys `targets` is never
/// returned by a query of a scope that it does not belong to.
pub proof fn lemma_ingested_is_kept_out<M>(
    store: StoreState<M>,
    stamp: u64,
    msg: M,
    targets: Set<Seq<u8>>,
    query: QueryView,
    limit: nat,
)
    requires
        store.wf(),
        !store.records.dom().contains(stamp),
        !selects(query.scope, targets),
    ensures
        !store.ingest(stamp, msg, targets).answer(query, limit).contains(stamp),
{
    let after = store.ingest(stamp, msg, targets);
    lemma_ingest_wf(store, stamp, msg, targets);
    let page = after.answer(query, limit);
    if page.contains(stamp) {
        let i = choose|i: int| 0 <= i < page.len() && page[i] == stamp;
        lemma_answer_within_scope(after, query, limit, i);
    }
}

/// Cursor resumption: the answer to a query for `a` records, followed by the
/// answer that its continuation gets for `b` records, is the answer to the
/// query for `a + b` records. Paging repeats nothing and skips nothing.
pub proof fn lemma_answer_resume<M>(store: StoreState<M>, query: QueryView, a: nat, b: nat)
    ensures
        store.answer(query, a + b) == store.answer(query, a).add(
            store.answer(query.follow(store.answer(query, a)), b),
        ),
{
    query.direction.lemma_resume(store.scope(query.scope), a, b);
}

/// An answer holds at most `limit` stamps, strictly rising for `Oldest` and
/// `Later`, strictly falling for `Earlier` and `Newest`.
pub proof fn lemma_answer_ordered<M>(store: StoreState<M>, query: QueryView, limit: nat)
    ensures
        store.answer(query, limit).len() <= limit,
        forall|i: int, j: int|
            0 <= i < j < store.answer(query, limit).len() ==> if query.direction.ascending() {
                (#[trigger] store.answer(query, limit)[i]) < #[trigger] store.answer(query, limit)[j]
            } else {
                (#[trigger] store.answer(query, limit)[i]) > #[trigger] store.answer(query, limit)[j]
            },
{
    query.direction.lemma_page_ordered(store.scope(query.scope), limit);
}

/// Taking in a record addressed to `n` keys adds `1 + max(1, n)` entries to
/// the index.
pub proof fn lemma_ingest_grows_index<M>(
    store: StoreState<M>,
    stamp: u64,
    msg: M,
    targets: Set<Seq<u8>>,
)
    requires
        store.wf(),
        !store.records.dom().contains(stamp),
        store.index.finite(),
        targets.finite(),
    ensures
        store.ingest(stamp, msg, targets).index.finite(),
        store.ingest(stamp, msg, targets).index.len() == store.index.len() + 1 + (if targets.len()
            == 0 {
            1
        } else {
            targets.len()
        }),
{
    let added = entries_for(stamp, targets);
    let any: Entry = (Scope::Any, stamp);
    let plain: Entry = (Scope::Server, stamp);
    let to_entry = |k: Seq<u8>| (Scope::Target(k), stamp);
    let keyed = targets.map(to_entry);
    lemma_map_size(targets, keyed, to_entry);
    assert(!keyed.contains(any) && !keyed.contains(plain));
    if targets.len() == 0 {
        assert(targets =~= Set::<Seq<u8>>::empty());
        assert(added =~= Set::<Entry>::empty().insert(any).insert(plain));
    } else {
        assert(!targets.is_empty());
        let k = targets.choose();
        assert(targets.contains(k));
        assert forall|e: Entry| added.contains(e) <==> keyed.insert(any).contains(e) by {
            if added.contains(e) && e != any {
                let key = e.0->Target_0;
                assert(targets.contains(key));
                assert(to_entry(key) == e);
            }
        }
        assert(added =~= keyed.insert(any));
    }
    assert(store.index.disjoint(added)) by {
        assert forall|e: Entry| !(store.index.contains(e) && added.contains(e)) by {
            if store.index.contains(e) {
                assert(store.records.dom().contains(e.1));
            }
        }
    }
    lemma_set_disjoint_lens(store.index, added);
}

/// On a scope without records every query returns nothing and is its own
/// continuation.
pub proof fn lemma_empty_scope<M>(store: StoreState<M>, query: QueryView, limit: nat)
    requires
        forall|t: u64| !store.scope(query.scope).contains(t),
    ensures
        store.answer(query, limit) == Seq::<u64>::empty(),
        query.follow(store.answer(query, limit)) == query,
{
}

} // verus!
