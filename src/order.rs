//! The ranking order of keywords: higher count first, then lexicographic token order.

use vstd::prelude::*;

verus! {

/// `a` comes before `b` in lexicographic order, comparing from position `i` on.
pub open spec fn lex_less_from(a: Seq<char>, b: Seq<char>, i: int) -> bool
    decreases a.len() - i,
{
    if i >= a.len() {
        b.len() > i
    } else if i >= b.len() {
        false
    } else if a[i] != b[i] {
        a[i] < b[i]
    } else {
        lex_less_from(a, b, i + 1)
    }
}

/// Lexicographic order on character sequences, a proper prefix first.
pub open spec fn lex_less(a: Seq<char>, b: Seq<char>) -> bool {
    lex_less_from(a, b, 0)
}

/// A token with its count.
pub type Entry = (Seq<char>, nat);

/// `x` ranks before `y`: a higher count, or the same count and a smaller token.
pub open spec fn ranks_before(x: Entry, y: Entry) -> bool {
    x.1 > y.1 || (x.1 == y.1 && lex_less(x.0, y.0))
}

pub proof fn lemma_lex_irreflexive(a: Seq<char>, i: int)
    requires
        0 <= i,
    ensures
        !lex_less_from(a, a, i),
    decreases a.len() - i,
{
    if i < a.len() {
        lemma_lex_irreflexive(a, i + 1);
    }
}

pub proof fn lemma_lex_transitive(a: Seq<char>, b: Seq<char>, c: Seq<char>, i: int)
    requires
        0 <= i,
        lex_less_from(a, b, i),
        lex_less_from(b, c, i),
    ensures
        lex_less_from(a, c, i),
    decreases a.len() - i,
{
    if i < a.len() && i < b.len() && i < c.len() && a[i] == b[i] && b[i] == c[i] {
        lemma_lex_transitive(a, b, c, i + 1);
    }
}

pub proof fn lemma_lex_total(a: Seq<char>, b: Seq<char>, i: int)
    requires
        0 <= i <= a.len(),
        i <= b.len(),
        !lex_less_from(a, b, i),
        !lex_less_from(b, a, i),
    ensures
        a.len() == b.len(),
        forall|j: int| i <= j < a.len() ==> a[j] == b[j],
    decreases a.len() - i,
{
    if i < a.len() && i < b.len() {
        lemma_lex_total(a, b, i + 1);
    }
}

/// Ranking is a strict order, total on entries with distinct tokens.
pub proof fn lemma_ranks_before_order(x: Entry, y: Entry, z: Entry)
    ensures
        !ranks_before(x, x),
        ranks_before(x, y) && ranks_before(y, z) ==> ranks_before(x, z),
        ranks_before(x, y) ==> !ranks_before(y, x),
        x.0 != y.0 ==> ranks_before(x, y) || ranks_before(y, x),
{
    lemma_lex_irreflexive(x.0, 0);
    if ranks_before(x, y) && ranks_before(y, z) && x.1 == y.1 && y.1 == z.1 {
        lemma_lex_transitive(x.0, y.0, z.0, 0);
    }
    if ranks_before(x, y) && ranks_before(y, x) {
        lemma_lex_transitive(x.0, y.0, x.0, 0);
    }
    if x.0 != y.0 && !ranks_before(x, y) && !ranks_before(y, x) {
        lemma_lex_total(x.0, y.0, 0);
        assert(x.0 =~= y.0);
    }
}

/// Compares two tokens lexicographically.
pub fn lex_less_exec(a: &Vec<char>, b: &Vec<char>) -> (r: bool)
    ensures
        r == lex_less(a@, b@),
{
    let mut i: usize = 0;
    while i < a.len() && i < b.len() && a[i] == b[i]
        invariant
            i <= a.len(),
            i <= b.len(),
            lex_less(a@, b@) == lex_less_from(a@, b@, i as int),
        decreases a.len() - i,
    {
        i = i + 1;
    }
    if i >= a.len() {
        i < b.len()
    } else if i >= b.len() {
        false
    } else {
        a[i] < b[i]
    }
}

/// Whether the entry `(a, ca)` ranks before `(b, cb)`.
pub fn ranks_before_exec(a: &Vec<char>, ca: usize, b: &Vec<char>, cb: usize) -> (r: bool)
    ensures
        r == ranks_before((a@, ca as nat), (b@, cb as nat)),
{
    ca > cb || (ca == cb && lex_less_exec(a, b))
}

} // verus!
