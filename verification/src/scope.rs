//! Scope selectors and the total order that lets one ordered index serve
//! every scope: the whole stream first, then server traffic, then the
//! targets in the order of their keys.

use vstd::prelude::*;
use crate::target::{BufferTarget, Rel, lex_lt, lemma_lex_irreflexive, lemma_lex_total, lemma_lex_transitive};

verus! {

/// What a selector stands for: every record, the records addressed to no
/// target, or the records addressed to one key.
pub enum Scope {
    Any,
    Server,
    Target(Seq<u8>),
}

/// The strict order on scopes: `Any`, then `Server`, then targets by key.
pub open spec fn scope_lt(a: Scope, b: Scope) -> bool {
    match (a, b) {
        (Scope::Any, Scope::Any) => false,
        (Scope::Any, _) => true,
        (Scope::Server, Scope::Target(_)) => true,
        (Scope::Server, _) => false,
        (Scope::Target(x), Scope::Target(y)) => lex_lt(x, y),
        (Scope::Target(_), _) => false,
    }
}

/// One entry of the secondary index: a scope and the stamp of a record in it.
pub type Entry = (Scope, u64);

/// The strict order on index entries: by scope, then by stamp.
pub open spec fn entry_lt(a: Entry, b: Entry) -> bool {
    scope_lt(a.0, b.0) || (a.0 == b.0 && a.1 < b.1)
}

/// No scope sorts before itself.
pub proof fn lemma_scope_irreflexive(a: Scope)
    ensures
        !scope_lt(a, a),
{
    if let Scope::Target(x) = a {
        lemma_lex_irreflexive(x);
    }
}

/// Of two scopes, one sorts before the other, or they are equal.
pub proof fn lemma_scope_total(a: Scope, b: Scope)
    ensures
        scope_lt(a, b) || a == b || scope_lt(b, a),
{
    if let Scope::Target(x) = a {
        if let Scope::Target(y) = b {
            lemma_lex_total(x, y);
        }
    }
}

/// The order on scopes is transitive.
pub proof fn lemma_scope_transitive(a: Scope, b: Scope, c: Scope)
    requires
        scope_lt(a, b),
        scope_lt(b, c),
    ensures
        scope_lt(a, c),
{
    if let Scope::Target(x) = a {
        if let Scope::Target(y) = b {
            if let Scope::Target(z) = c {
                lemma_lex_transitive(x, y, z);
            }
        }
    }
}

/// No entry sorts before itself.
pub proof fn lemma_entry_irreflexive(a: Entry)
    ensures
        !entry_lt(a, a),
{
    lemma_scope_irreflexive(a.0);
}

/// Of two entries, one sorts before the other, or they are equal.
pub proof fn lemma_entry_total(a: Entry, b: Entry)
    ensures
        entry_lt(a, b) || a == b || entry_lt(b, a),
{
    lemma_scope_total(a.0, b.0);
}

/// The order on entries is transitive.
pub proof fn lemma_entry_transitive(a: Entry, b: Entry, c: Entry)
    requires
        entry_lt(a, b),
        entry_lt(b, c),
    ensures
        entry_lt(a, c),
{
    if scope_lt(a.0, b.0) && scope_lt(b.0, c.0) {
        lemma_scope_transitive(a.0, b.0, c.0);
    }
}

/// Which records a query looks at.
#[derive(Debug, PartialEq, Eq, PartialOrd, Ord)]
pub enum QueryBuffer {
    /// Every record.
    Any,
    /// The records addressed to no target.
    Server,
    /// The records addressed to this key.
    Target(BufferTarget),
}

impl View for QueryBuffer {
    type V = Scope;

    open spec fn view(&self) -> Scope {
        match self {
            QueryBuffer::Any => Scope::Any,
            QueryBuffer::Server => Scope::Server,
            QueryBuffer::Target(key) => Scope::Target(key@),
        }
    }
}

impl Clone for QueryBuffer {
    fn clone(&self) -> (copy: Self)
        ensures
            copy@ == self@,
    {
        match self {
            QueryBuffer::Any => QueryBuffer::Any,
            QueryBuffer::Server => QueryBuffer::Server,
            QueryBuffer::Target(key) => QueryBuffer::Target(key.clone()),
        }
    }
}

impl QueryBuffer {
    /// Places `self` against `other` in the order on scopes.
    pub fn relate(&self, other: &QueryBuffer) -> (r: Rel)
        ensures
            r is Before <==> scope_lt(self@, other@),
            r is Same <==> self@ == other@,
            r is After <==> scope_lt(other@, self@),
    {
        match (self, other) {
            (QueryBuffer::Any, QueryBuffer::Any) => Rel::Same,
            (QueryBuffer::Any, _) => Rel::Before,
            (QueryBuffer::Server, QueryBuffer::Any) => Rel::After,
            (QueryBuffer::Server, QueryBuffer::Server) => Rel::Same,
            (QueryBuffer::Server, QueryBuffer::Target(_)) => Rel::Before,
            (QueryBuffer::Target(x), QueryBuffer::Target(y)) => x.relate(y),
            (QueryBuffer::Target(_), _) => Rel::After,
        }
    }
}

} // verus!
