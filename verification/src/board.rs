//! The chess-level model: queen attacks, conflicts among pre-placed queens,
//! validity of a complete assignment, and lexicographic order on assignments.

use vstd::prelude::*;

verus! {

/// Squares (r1, c1) and (r2, c2) lie on a common queen line: same row, same
/// column, or a common diagonal.  A square trivially attacks itself.
pub open spec fn attacks(r1: int, c1: int, r2: int, c2: int) -> bool {
    r1 == r2 || c1 == c2 || r1 + c1 == r2 + c2 || r1 - c1 == r2 - c2
}

/// Some pair of the given pre-placed queens occupy the same square or
/// attack each other.
pub open spec fn has_conflict(qs: Seq<(u8, u8)>) -> bool {
    exists|i: int, j: int|
        0 <= i < j < qs.len() && attacks(
            #[trigger] qs[i].0 as int,
            qs[i].1 as int,
            #[trigger] qs[j].0 as int,
            qs[j].1 as int,
        )
}

/// Square (r, c) is occupied or attacked by one of the pre-placed queens.
pub open spec fn attacked(qs: Seq<(u8, u8)>, r: int, c: int) -> bool {
    exists|i: int| 0 <= i < qs.len() && attacks(#[trigger] qs[i].0 as int, qs[i].1 as int, r, c)
}

/// A complete assignment of one queen row per column: every row is on the
/// board and no two queens attack each other.
pub open spec fn valid_board(n: int, qs: Seq<i8>) -> bool {
    &&& qs.len() == n
    &&& forall|c: int| 0 <= c < n ==> 0 <= #[trigger] qs[c] < n
    &&& forall|c1: int, c2: int|
        0 <= c1 < c2 < n ==> !attacks(#[trigger] qs[c1] as int, c1, #[trigger] qs[c2] as int, c2)
}

/// The assignment places every one of the given pre-placed queens.
pub open spec fn extends(qs: Seq<i8>, qpos: Seq<(u8, u8)>) -> bool {
    forall|i: int|
        #![trigger qpos[i]]
        0 <= i < qpos.len() ==> qs[qpos[i].1 as int] == qpos[i].0 as i8
}

/// The horizontal mirror of an assignment: row r becomes n - 1 - r.
pub open spec fn reflected(n: int, qs: Seq<i8>) -> Seq<i8> {
    Seq::new(qs.len(), |c: int| (n - 1 - qs[c]) as i8)
}

/// Mirroring a valid board horizontally yields a valid board: reflection
/// preserves rows-distinctness and swaps the two diagonal directions.
pub proof fn lemma_reflected_board_valid(n: int, qs: Seq<i8>)
    requires
        n <= 128,
        valid_board(n, qs),
    ensures
        valid_board(n, reflected(n, qs)),
{
    let rs = reflected(n, qs);
    assert forall|c: int| 0 <= c < n implies 0 <= #[trigger] rs[c] < n by {
        assert(0 <= qs[c] < n);
    }
    assert forall|c1: int, c2: int|
        0 <= c1 < c2 < n implies !attacks(
        #[trigger] rs[c1] as int,
        c1,
        #[trigger] rs[c2] as int,
        c2,
    ) by {
        assert(!attacks(qs[c1] as int, c1, qs[c2] as int, c2));
        assert(rs[c1] as int == n - 1 - qs[c1]);
        assert(rs[c2] as int == n - 1 - qs[c2]);
    }
}

/// Assignment `a` comes strictly before `b` in lexicographic order.
pub open spec fn lex_lt(a: Seq<i8>, b: Seq<i8>) -> bool {
    exists|k: int|
        #![trigger a[k], b[k]]
        0 <= k < a.len() && k < b.len() && (forall|j: int| 0 <= j < k ==> a[j] == b[j]) && a[k]
            < b[k]
}

/// Assignment `a` comes before `b` or equals it.
pub open spec fn lex_le(a: Seq<i8>, b: Seq<i8>) -> bool {
    lex_lt(a, b) || a == b
}

/// Two assignments that agree up to position k and differ there are
/// lexicographically ordered by that position.
pub proof fn lemma_lex_lt_at(a: Seq<i8>, b: Seq<i8>, k: int)
    requires
        0 <= k < a.len(),
        k < b.len(),
        forall|j: int| 0 <= j < k ==> a[j] == b[j],
        a[k] < b[k],
    ensures
        lex_lt(a, b),
{
    assert(0 <= k < a.len() && k < b.len() && (forall|j: int| 0 <= j < k ==> a[j] == b[j]) && a[k]
        < b[k]);
}

} // verus!
