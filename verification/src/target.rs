//! Scope keys: canonical byte strings naming a channel or a nickname, and the
//! lexicographic order on them.

use vstd::prelude::*;

verus! {

/// The image of `raw` under the byte table `table`, taken byte by byte.
pub open spec fn fold_bytes(table: Seq<u8>, raw: Seq<u8>) -> Seq<u8> {
    Seq::new(raw.len(), |i: int| table[raw[i] as int])
}

/// A table that maps each of its own outputs to itself.
pub open spec fn idempotent_table(table: Seq<u8>) -> bool {
    &&& table.len() == 256
    &&& forall|b: u8| #[trigger] table[table[b as int] as int] == table[b as int]
}

/// Lexicographic order on byte strings, decided from position `i` on.
pub open spec fn lex_lt_from(a: Seq<u8>, b: Seq<u8>, i: int) -> bool
    decreases a.len() - i,
{
    if i >= b.len() {
        false
    } else if i >= a.len() {
        true
    } else if a[i] != b[i] {
        a[i] < b[i]
    } else {
        lex_lt_from(a, b, i + 1)
    }
}

/// Lexicographic order on byte strings: `a` sorts strictly before `b`.
pub open spec fn lex_lt(a: Seq<u8>, b: Seq<u8>) -> bool {
    lex_lt_from(a, b, 0)
}

/// How one value stands to another in a strict total order.
#[derive(Clone, Copy, Debug, PartialEq, Eq, Structural)]
pub enum Rel {
    Before,
    Same,
    After,
}

/// A canonical scope key. Two raw names that fold to the same bytes are the
/// same key; equality and order look at the folded bytes only.
#[derive(Debug, Hash, PartialEq, Eq, PartialOrd, Ord)]
pub struct BufferTarget(Vec<u8>);

impl View for BufferTarget {
    type V = Seq<u8>;

    closed spec fn view(&self) -> Seq<u8> {
        self.0@
    }
}

impl Clone for BufferTarget {
    fn clone(&self) -> (copy: Self)
        ensures
            copy@ == self@,
    {
        BufferTarget(self.0.clone())
    }
}

impl BufferTarget {
    /// Folds `target` through `lower_map`, one byte at a time.
    pub fn new(lower_map: &[u8; 256], target: &[u8]) -> (key: BufferTarget)
        ensures
            key@ == fold_bytes(lower_map@, target@),
    {
        let mut out: Vec<u8> = Vec::with_capacity(target.len());
        let mut i: usize = 0;
        while i < target.len()
            invariant
                i <= target.len(),
                out@.len() == i,
                forall|j: int| 0 <= j < i ==> out@[j] == lower_map@[target@[j] as int],
            decreases target.len() - i,
        {
            let byte: u8 = target[i];
            out.push(lower_map[byte as usize]);
            i += 1;
        }
        assert(out@ =~= fold_bytes(lower_map@, target@));
        BufferTarget(out)
    }

    /// The folded bytes.
    pub fn as_bytes(&self) -> (bytes: &[u8])
        ensures
            bytes@ == self@,
    {
        self.0.as_slice()
    }

    /// Places `self` against `other` in the lexicographic order of their bytes.
    pub fn relate(&self, other: &BufferTarget) -> (r: Rel)
        ensures
            r is Before <==> lex_lt(self@, other@),
            r is Same <==> self@ == other@,
            r is After <==> lex_lt(other@, self@),
    {
        relate_bytes(self.0.as_slice(), other.0.as_slice())
    }
}

/// Places `a` against `b` in the lexicographic order.
pub fn relate_bytes(a: &[u8], b: &[u8]) -> (r: Rel)
    ensures
        r is Before <==> lex_lt(a@, b@),
        r is Same <==> a@ == b@,
        r is After <==> lex_lt(b@, a@),
{
    let mut i: usize = 0;
    while i < a.len() && i < b.len()
        invariant
            i <= a.len(),
            i <= b.len(),
            forall|j: int| 0 <= j < i ==> a@[j] == b@[j],
            lex_lt(a@, b@) == lex_lt_from(a@, b@, i as int),
            lex_lt(b@, a@) == lex_lt_from(b@, a@, i as int),
        decreases a.len() - i,
    {
        if a[i] < b[i] {
            return Rel::Before;
        }
        if a[i] > b[i] {
            return Rel::After;
        }
        i += 1;
    }
    if i < b.len() {
        Rel::Before
    } else if i < a.len() {
        Rel::After
    } else {
        assert(a@ =~= b@);
        Rel::Same
    }
}

/// Folding is idempotent: through a table that maps each of its outputs to
/// itself, folding what was folded changes nothing.
pub proof fn lemma_fold_idempotent(table: Seq<u8>, raw: Seq<u8>)
    requires
        idempotent_table(table),
    ensures
        fold_bytes(table, fold_bytes(table, raw)) == fold_bytes(table, raw),
{
    let once = fold_bytes(table, raw);
    let twice = fold_bytes(table, once);
    assert forall|i: int| 0 <= i < raw.len() implies twice[i] == once[i] by {
        let b = raw[i];
        assert(table[table[b as int] as int] == table[b as int]);
    }
    assert(twice =~= once);
}

/// No byte string sorts before itself.
pub proof fn lemma_lex_irreflexive(a: Seq<u8>)
    ensures
        !lex_lt(a, a),
{
    lemma_lex_irreflexive_from(a, 0);
}

proof fn lemma_lex_irreflexive_from(a: Seq<u8>, i: int)
    requires
        0 <= i,
    ensures
        !lex_lt_from(a, a, i),
    decreases a.len() - i,
{
    if i < a.len() {
        lemma_lex_irreflexive_from(a, i + 1);
    }
}

/// Of two byte strings, one sorts before the other, or they are equal.
pub proof fn lemma_lex_total(a: Seq<u8>, b: Seq<u8>)
    ensures
        lex_lt(a, b) || a == b || lex_lt(b, a),
{
    lemma_lex_total_from(a, b, 0);
}

proof fn lemma_lex_total_from(a: Seq<u8>, b: Seq<u8>, i: int)
    requires
        0 <= i <= a.len(),
        i <= b.len(),
        forall|j: int| 0 <= j < i ==> a[j] == b[j],
    ensures
        lex_lt_from(a, b, i) || a == b || lex_lt_from(b, a, i),
    decreases a.len() - i,
{
    if i >= a.len() && i >= b.len() {
        assert(a =~= b);
    } else if i < a.len() && i < b.len() && a[i] == b[i] {
        lemma_lex_total_from(a, b, i + 1);
    }
}

/// The lexicographic order is transitive.
pub proof fn lemma_lex_transitive(a: Seq<u8>, b: Seq<u8>, c: Seq<u8>)
    requires
        lex_lt(a, b),
        lex_lt(b, c),
    ensures
        lex_lt(a, c),
{
    lemma_lex_transitive_from(a, b, c, 0);
}

proof fn lemma_lex_transitive_from(a: Seq<u8>, b: Seq<u8>, c: Seq<u8>, i: int)
    requires
        0 <= i,
        lex_lt_from(a, b, i),
        lex_lt_from(b, c, i),
    ensures
        lex_lt_from(a, c, i),
    decreases a.len() - i,
{
    if i < a.len() && a[i] == b[i] && b[i] == c[i] {
        lemma_lex_transitive_from(a, b, c, i + 1);
    }
}

/// Two byte strings never sort before each other.
pub proof fn lemma_lex_asymmetric(a: Seq<u8>, b: Seq<u8>)
    requires
        lex_lt(a, b),
    ensures
        !lex_lt(b, a),
{
    if lex_lt(b, a) {
        lemma_lex_transitive(a, b, a);
        lemma_lex_irreflexive(a);
    }
}

} // verus!
