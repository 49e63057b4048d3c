//! Queries, cursors and results.
//!
//! A query names a scope and a direction. Its direction doubles as the
//! cursor: each result carries the query that continues the walk where the
//! result ended.

use vstd::prelude::*;
use crate::paging::{scan, resume_from, lemma_scan_resume, lemma_scan_len, lemma_scan_ordered};
use crate::scope::{QueryBuffer, Scope};
use crate::target::BufferTarget;

verus! {

/// Where a walk through a scope starts and which way it goes.
#[derive(Clone, Copy, Debug, PartialEq, Eq, PartialOrd, Ord, Structural)]
pub enum QueryDirection {
    /// Upward from the oldest record of the scope.
    Oldest,
    /// Upward, strictly after the given stamp.
    Later(u64),
    /// Downward, strictly before the given stamp.
    Earlier(u64),
    /// Downward from the newest record of the scope.
    Newest,
}

impl QueryDirection {
    /// Whether the walk goes toward later stamps.
    pub open spec fn ascending(self) -> bool {
        self is Oldest || self is Later
    }

    /// The bound that the walk leaves from; the walk itself starts past it.
    pub open spec fn origin(self) -> int {
        match self {
            QueryDirection::Oldest => -1,
            QueryDirection::Later(t) => t as int,
            QueryDirection::Earlier(t) => t as int,
            QueryDirection::Newest => u64::MAX as int + 1,
        }
    }

    /// The page of at most `n` stamps that this walk takes out of `s`.
    pub open spec fn page(self, s: Set<u64>, n: nat) -> Seq<u64> {
        scan(s, self.ascending(), self.origin(), n)
    }

    /// The direction that continues this walk after it returned `page`: past
    /// the last stamp returned, or unchanged where nothing was returned.
    pub open spec fn advance(self, page: Seq<u64>) -> QueryDirection {
        if page.len() == 0 {
            self
        } else if self.ascending() {
            QueryDirection::Later(page.last())
        } else {
            QueryDirection::Earlier(page.last())
        }
    }

    /// Cursor resumption: a page of `a` stamps followed by a page of `b`
    /// stamps taken with the advanced direction is the page of `a + b` stamps.
    pub proof fn lemma_resume(self, s: Set<u64>, a: nat, b: nat)
        ensures
            self.page(s, a + b) == self.page(s, a).add(self.advance(self.page(s, a)).page(s, b)),
    {
        lemma_scan_resume(s, self.ascending(), self.origin(), a, b);
    }

    /// A page holds at most `n` stamps, all of the scope, strictly rising
    /// for `Oldest` and `Later` and strictly falling for `Earlier` and
    /// `Newest`.
    pub proof fn lemma_page_ordered(self, s: Set<u64>, n: nat)
        ensures
            self.page(s, n).len() <= n,
            forall|i: int| 0 <= i < self.page(s, n).len() ==> s.contains(#[trigger] self.page(s, n)[i]),
            forall|i: int, j: int|
                0 <= i < j < self.page(s, n).len() ==> if self.ascending() {
                    (#[trigger] self.page(s, n)[i]) < #[trigger] self.page(s, n)[j]
                } else {
                    (#[trigger] self.page(s, n)[i]) > #[trigger] self.page(s, n)[j]
                },
    {
        lemma_scan_len(s, self.ascending(), self.origin(), n);
        lemma_scan_ordered(s, self.ascending(), self.origin(), n);
    }
}

/// What a query asks for: a scope and a direction.
pub struct QueryView {
    pub scope: Scope,
    pub direction: QueryDirection,
}

impl QueryView {
    /// The query that continues this one after it returned `page`: the same
    /// scope, the advanced direction.
    pub open spec fn follow(self, page: Seq<u64>) -> QueryView {
        QueryView { scope: self.scope, direction: self.direction.advance(page) }
    }
}

/// A scope together with a direction. Built from a scope (`any`, `server`,
/// `target`), which starts at the newest record, and redirected by `oldest`,
/// `later`, `earlier` and `newest`.
#[derive(Debug, PartialEq, Eq)]
pub struct Query {
    buffer: QueryBuffer,
    direction: QueryDirection,
}

impl View for Query {
    type V = QueryView;

    closed spec fn view(&self) -> QueryView {
        QueryView { scope: self.buffer@, direction: self.direction }
    }
}

impl Clone for Query {
    fn clone(&self) -> (copy: Self)
        ensures
            copy@ == self@,
    {
        Query { buffer: self.buffer.clone(), direction: self.direction }
    }
}

impl Query {
    /// Every record, newest first.
    pub fn any() -> (q: Query)
        ensures
            q@ == (QueryView { scope: Scope::Any, direction: QueryDirection::Newest }),
    {
        Query { buffer: QueryBuffer::Any, direction: QueryDirection::Newest }
    }

    /// The records addressed to no target, newest first.
    pub fn server() -> (q: Query)
        ensures
            q@ == (QueryView { scope: Scope::Server, direction: QueryDirection::Newest }),
    {
        Query { buffer: QueryBuffer::Server, direction: QueryDirection::Newest }
    }

    /// The records addressed to `buffer`, newest first.
    pub fn target(buffer: BufferTarget) -> (q: Query)
        ensures
            q@ == (QueryView { scope: Scope::Target(buffer@), direction: QueryDirection::Newest }),
    {
        Query { buffer: QueryBuffer::Target(buffer), direction: QueryDirection::Newest }
    }

    /// The same scope, upward from its oldest record.
    pub fn oldest(self) -> (q: Query)
        ensures
            q@ == (QueryView { scope: self@.scope, direction: QueryDirection::Oldest }),
    {
        Query { buffer: self.buffer, direction: QueryDirection::Oldest }
    }

    /// The same scope, upward and strictly after `when`.
    pub fn later(self, when: u64) -> (q: Query)
        ensures
            q@ == (QueryView { scope: self@.scope, direction: QueryDirection::Later(when) }),
    {
        Query { buffer: self.buffer, direction: QueryDirection::Later(when) }
    }

    /// The same scope, downward and strictly before `when`.
    pub fn earlier(self, when: u64) -> (q: Query)
        ensures
            q@ == (QueryView { scope: self@.scope, direction: QueryDirection::Earlier(when) }),
    {
        Query { buffer: self.buffer, direction: QueryDirection::Earlier(when) }
    }

    /// The same scope, downward from its newest record.
    pub fn newest(self) -> (q: Query)
        ensures
            q@ == (QueryView { scope: self@.scope, direction: QueryDirection::Newest }),
    {
        Query { buffer: self.buffer, direction: QueryDirection::Newest }
    }

    /// The scope that the query looks at.
    pub fn buffer(&self) -> (buffer: &QueryBuffer)
        ensures
            buffer@ == self@.scope,
    {
        &self.buffer
    }

    /// The direction of the query, which is also its cursor.
    pub fn direction(&self) -> (direction: QueryDirection)
        ensures
            direction == self@.direction,
    {
        self.direction
    }
}

/// Why a query was refused.
#[derive(Clone, Copy, Debug, PartialEq, Eq, Structural)]
pub enum QueryError {
    /// The limit was zero: a query has to ask for at least one record.
    ZeroLimit,
    /// The index lists a stamp under which the store holds no record.
    MissingRecord,
}

/// What a result holds: the query that continues the walk, and the records
/// in the order of the walk.
pub struct QueryResultView<M> {
    pub next: QueryView,
    pub messages: Seq<M>,
}

/// One page of records and the query that continues after it.
#[derive(Debug)]
pub struct QueryResult<M> {
    next: Query,
    messages: Vec<M>,
}

impl<M> View for QueryResult<M> {
    type V = QueryResultView<M>;

    closed spec fn view(&self) -> QueryResultView<M> {
        QueryResultView { next: self.next@, messages: self.messages@ }
    }
}

impl<M> QueryResult<M> {
    /// Puts a page and its continuation together.
    pub(crate) fn new(next: Query, messages: Vec<M>) -> (result: QueryResult<M>)
        ensures
            result@ == (QueryResultView { next: next@, messages: messages@ }),
    {
        QueryResult { next, messages }
    }

    /// The query that continues where this page ended.
    pub fn next(&self) -> (next: &Query)
        ensures
            next@ == self@.next,
    {
        &self.next
    }

    /// The records of the page, in the order of the walk.
    pub fn messages(&self) -> (messages: &Vec<M>)
        ensures
            messages@ == self@.messages,
    {
        &self.messages
    }

    /// Takes the result apart.
    pub fn into_parts(self) -> (parts: (Query, Vec<M>))
        ensures
            parts.0@ == self@.next,
            parts.1@ == self@.messages,
    {
        (self.next, self.messages)
    }
}

} // verus!
