//! The backtracking solver: column-by-column search with bitwise pruning,
//! collecting one or all solutions in discovery (= lexicographic) order.

use vstd::prelude::*;
use crate::bits::bit128;
use crate::bits::full_mask;
use crate::bits::lemma_bit128_andnot;
use crate::bits::lemma_bit128_or;
use crate::bits::lemma_bit128_shl1;
use crate::bits::lemma_bit128_shr1;
use crate::bits::lemma_bit128_single;
use crate::bits::lemma_bit128_zero;
use crate::bits::lemma_full_mask;
use crate::board::attacked;
use crate::board::attacks;
use crate::board::extends;
use crate::board::has_conflict;
use crate::board::lex_le;
use crate::board::lex_lt;
use crate::board::lemma_lex_lt_at;
use crate::board::valid_board;

verus! {

/// Some freely chosen queen in a column before `col` sits on row `v`.
spec fn row_taken(fixed: Seq<i8>, cur: Seq<i8>, col: int, v: int) -> bool {
    exists|c: int| #![trigger cur[c]] 0 <= c < col && fixed[c] == -1 && cur[c] == v
}

/// Some freely chosen queen in a column before `col` attacks row `v` of
/// column `col` along a "/" diagonal (its row drops by one per column).
spec fn ldiag_taken(fixed: Seq<i8>, cur: Seq<i8>, col: int, v: int) -> bool {
    exists|c: int| #![trigger cur[c]] 0 <= c < col && fixed[c] == -1 && cur[c] - (col - c) == v
}

/// Some freely chosen queen in a column before `col` attacks row `v` of
/// column `col` along a "\" diagonal (its row rises by one per column).
spec fn rdiag_taken(fixed: Seq<i8>, cur: Seq<i8>, col: int, v: int) -> bool {
    exists|c: int| #![trigger cur[c]] 0 <= c < col && fixed[c] == -1 && cur[c] + (col - c) == v
}

/// The three rolling bitmasks carried by the search hold, as seen from
/// column `col`, exactly the rows attacked by the freely chosen queens of
/// the columns already filled.
spec fn masks_ok(
    rows: u128,
    ld: u128,
    rd: u128,
    fixed: Seq<i8>,
    cur: Seq<i8>,
    col: int,
) -> bool {
    &&& forall|r: u128|
        r < 128 ==> (#[trigger] bit128(rows, r) <==> row_taken(fixed, cur, col, r as int))
    &&& forall|r: u128|
        r < 128 ==> (#[trigger] bit128(ld, r) <==> ldiag_taken(fixed, cur, col, r as int))
    &&& forall|r: u128|
        r < 128 ==> (#[trigger] bit128(rd, r) <==> rdiag_taken(fixed, cur, col, r as int))
}

/// The partial assignment `cur` is a consistent search state at column
/// `col`: fixed columns keep their queen, columns not yet reached still
/// show the fixed assignment, and the freely chosen queens are on-board,
/// unmasked, and mutually non-attacking.
spec fn partial_ok(
    n: int,
    fixed: Seq<i8>,
    masks: Seq<u128>,
    cur: Seq<i8>,
    col: int,
) -> bool {
    &&& 4 <= n <= 128
    &&& fixed.len() == n
    &&& cur.len() == n
    &&& masks.len() == n
    &&& 0 <= col <= n
    &&& forall|c: int| 0 <= c < n ==> -1 <= #[trigger] fixed[c] < n
    &&& forall|c: int| col <= c < n ==> #[trigger] cur[c] == fixed[c]
    &&& forall|c: int| 0 <= c < col && #[trigger] fixed[c] != -1 ==> cur[c] == fixed[c]
    &&& forall|c: int|
        0 <= c < col && #[trigger] fixed[c] == -1 ==> 0 <= cur[c] < n && !bit128(
            masks[c],
            cur[c] as u128,
        )
    &&& forall|c1: int, c2: int|
        0 <= c1 < c2 < col && fixed[c1] == -1 && fixed[c2] == -1 ==> !attacks(
            #[trigger] cur[c1] as int,
            c1,
            #[trigger] cur[c2] as int,
            c2,
        )
}

/// Advancing past a fixed column: the rolling masks keep their rows and
/// shift their diagonals, and still describe the same chosen queens.
proof fn lemma_advance_fixed(
    rows: u128,
    ld: u128,
    rd: u128,
    fixed: Seq<i8>,
    cur: Seq<i8>,
    col: int,
    n: int,
)
    requires
        n <= 128,
        cur.len() == n,
        0 <= col < n,
        forall|c: int| 0 <= c < col && fixed[c] == -1 ==> 0 <= #[trigger] cur[c] < n,
        masks_ok(rows, ld, rd, fixed, cur, col),
        fixed[col] != -1,
    ensures
        masks_ok(rows, ld >> 1u128, rd << 1u128, fixed, cur, col + 1),
{
    lemma_bit128_shr1();
    lemma_bit128_shl1();
    assert forall|r: u128| r < 128 implies (#[trigger] bit128(rows, r) <==> row_taken(
        fixed,
        cur,
        col + 1,
        r as int,
    )) by {
        if row_taken(fixed, cur, col + 1, r as int) {
            let c = choose|c: int|
                #![trigger cur[c]]
                0 <= c < col + 1 && fixed[c] == -1 && cur[c] == r as int;
            assert(c < col);
            assert(row_taken(fixed, cur, col, r as int));
        }
        if row_taken(fixed, cur, col, r as int) {
            let c = choose|c: int| #![trigger cur[c]] 0 <= c < col && fixed[c] == -1 && cur[c] == r as int;
            assert(0 <= c < col + 1 && fixed[c] == -1 && cur[c] == r as int);
        }
    }
    assert forall|r: u128| r < 128 implies (#[trigger] bit128(ld >> 1u128, r) <==> ldiag_taken(
        fixed,
        cur,
        col + 1,
        r as int,
    )) by {
        if bit128(ld >> 1u128, r) {
            assert(r < 127 && bit128(ld, (r + 1) as u128));
            let c = choose|c: int|
                #![trigger cur[c]]
                0 <= c < col && fixed[c] == -1 && cur[c] - (col - c) == (r + 1) as u128 as int;
            assert(0 <= c < col + 1 && fixed[c] == -1 && cur[c] - (col + 1 - c) == r as int);
        }
        if ldiag_taken(fixed, cur, col + 1, r as int) {
            let c = choose|c: int|
                #![trigger cur[c]]
                0 <= c < col + 1 && fixed[c] == -1 && cur[c] - (col + 1 - c) == r as int;
            assert(c < col);
            assert(cur[c] - (col - c) == r + 1);
            assert(r + 1 < 127);
            assert(bit128(ld, (r + 1) as u128));
            assert(bit128(ld >> 1u128, r));
        }
    }
    assert forall|r: u128| r < 128 implies (#[trigger] bit128(rd << 1u128, r) <==> rdiag_taken(
        fixed,
        cur,
        col + 1,
        r as int,
    )) by {
        if bit128(rd << 1u128, r) {
            assert(r >= 1 && bit128(rd, (r - 1) as u128));
            let c = choose|c: int|
                #![trigger cur[c]]
                0 <= c < col && fixed[c] == -1 && cur[c] + (col - c) == (r - 1) as u128 as int;
            assert(0 <= c < col + 1 && fixed[c] == -1 && cur[c] + (col + 1 - c) == r as int);
        }
        if rdiag_taken(fixed, cur, col + 1, r as int) {
            let c = choose|c: int|
                #![trigger cur[c]]
                0 <= c < col + 1 && fixed[c] == -1 && cur[c] + (col + 1 - c) == r as int;
            assert(c < col);
            assert(cur[c] + (col - c) == r - 1);
            assert(r - 1 < 128 && r >= 1);
            assert(bit128(rd, (r - 1) as u128));
            assert(bit128(rd << 1u128, r));
        }
    }
}

/// Placing a queen on row `rq` of the free column `col` and advancing: the
/// rolling masks absorb the new queen's bit and shift, and then describe
/// the chosen queens of the extended assignment.
proof fn lemma_advance_chosen(
    rows: u128,
    ld: u128,
    rd: u128,
    fixed: Seq<i8>,
    cur: Seq<i8>,
    col: int,
    n: int,
    rq: i8,
)
    requires
        n <= 128,
        cur.len() == n,
        0 <= col < n,
        forall|c: int| 0 <= c < col && fixed[c] == -1 ==> 0 <= #[trigger] cur[c] < n,
        masks_ok(rows, ld, rd, fixed, cur, col),
        fixed[col] == -1,
        0 <= rq < n,
    ensures
        masks_ok(
            rows | (1u128 << (rq as u128)),
            (ld | (1u128 << (rq as u128))) >> 1u128,
            (rd | (1u128 << (rq as u128))) << 1u128,
            fixed,
            cur.update(col, rq),
            col + 1,
        ),
{
    lemma_bit128_or();
    lemma_bit128_single();
    lemma_bit128_shr1();
    lemma_bit128_shl1();
    let pos = 1u128 << (rq as u128);
    let cur2 = cur.update(col, rq);
    assert(cur2[col] == rq);
    assert forall|c: int| 0 <= c < col implies cur2[c] == cur[c] by {}
    assert forall|r: u128| r < 128 implies (#[trigger] bit128(rows | pos, r) <==> row_taken(
        fixed,
        cur2,
        col + 1,
        r as int,
    )) by {
        assert(bit128(rows | pos, r) <==> bit128(rows, r) || r == rq as u128);
        if bit128(rows, r) {
            let c = choose|c: int| #![trigger cur[c]] 0 <= c < col && fixed[c] == -1 && cur[c] == r as int;
            assert(0 <= c < col + 1 && fixed[c] == -1 && cur2[c] == r as int);
        }
        if r == rq as u128 {
            assert(0 <= col < col + 1 && fixed[col] == -1 && cur2[col] == r as int);
        }
        if row_taken(fixed, cur2, col + 1, r as int) {
            let c = choose|c: int|
                #![trigger cur2[c]]
                0 <= c < col + 1 && fixed[c] == -1 && cur2[c] == r as int;
            if c == col {
                assert(r == rq as u128);
            } else {
                assert(cur[c] == r as int);
                assert(bit128(rows, r));
            }
        }
    }
    assert forall|r: u128| r < 128 implies (#[trigger] bit128((ld | pos) >> 1u128, r)
        <==> ldiag_taken(fixed, cur2, col + 1, r as int)) by {
        assert(bit128((ld | pos) >> 1u128, r) <==> r < 127 && (bit128(ld, (r + 1) as u128) || (r
            + 1) as u128 == rq as u128));
        if r < 127 && bit128(ld, (r + 1) as u128) {
            let c = choose|c: int|
                #![trigger cur[c]]
                0 <= c < col && fixed[c] == -1 && cur[c] - (col - c) == (r + 1) as u128 as int;
            assert(0 <= c < col + 1 && fixed[c] == -1 && cur2[c] - (col + 1 - c) == r as int);
        }
        if r < 127 && (r + 1) as u128 == rq as u128 {
            assert(0 <= col < col + 1 && fixed[col] == -1 && cur2[col] - (col + 1 - col)
                == r as int);
        }
        if ldiag_taken(fixed, cur2, col + 1, r as int) {
            let c = choose|c: int|
                #![trigger cur2[c]]
                0 <= c < col + 1 && fixed[c] == -1 && cur2[c] - (col + 1 - c) == r as int;
            if c == col {
                assert(rq - 1 == r as int);
                assert(r < 127 && (r + 1) as u128 == rq as u128);
            } else {
                assert(cur[c] - (col - c) == r + 1);
                assert(r + 1 < 127);
                assert(bit128(ld, (r + 1) as u128));
            }
        }
    }
    assert forall|r: u128| r < 128 implies (#[trigger] bit128((rd | pos) << 1u128, r)
        <==> rdiag_taken(fixed, cur2, col + 1, r as int)) by {
        assert(bit128((rd | pos) << 1u128, r) <==> r >= 1 && (bit128(rd, (r - 1) as u128) || (r
            - 1) as u128 == rq as u128));
        if r >= 1 && bit128(rd, (r - 1) as u128) {
            let c = choose|c: int|
                #![trigger cur[c]]
                0 <= c < col && fixed[c] == -1 && cur[c] + (col - c) == (r - 1) as u128 as int;
            assert(0 <= c < col + 1 && fixed[c] == -1 && cur2[c] + (col + 1 - c) == r as int);
        }
        if r >= 1 && (r - 1) as u128 == rq as u128 {
            assert(0 <= col < col + 1 && fixed[col] == -1 && cur2[col] + (col + 1 - col)
                == r as int);
        }
        if rdiag_taken(fixed, cur2, col + 1, r as int) {
            let c = choose|c: int|
                #![trigger cur2[c]]
                0 <= c < col + 1 && fixed[c] == -1 && cur2[c] + (col + 1 - c) == r as int;
            if c == col {
                assert(rq + 1 == r as int);
                assert(r >= 1 && (r - 1) as u128 == rq as u128);
            } else {
                assert(cur[c] + (col - c) == r - 1);
                assert(r - 1 < 128);
                assert(bit128(rd, (r - 1) as u128));
            }
        }
    }
}

/// What the pruned candidate mask of a free column means: bit `r` is set
/// exactly when row `r` is on the board, not pre-masked, and not attacked
/// by any freely chosen queen of an earlier column.
proof fn lemma_available_bits(
    n: int,
    fixed: Seq<i8>,
    masks: Seq<u128>,
    cur: Seq<i8>,
    col: int,
    rows: u128,
    ld: u128,
    rd: u128,
    avail: u128,
)
    requires
        partial_ok(n, fixed, masks, cur, col),
        col < n,
        masks_ok(rows, ld, rd, fixed, cur, col),
        avail == full_mask(n as u128) & !(rows | ld | rd | masks[col]),
    ensures
        forall|r: u128|
            r < 128 ==> (#[trigger] bit128(avail, r) <==> (r < n && !bit128(masks[col], r) && (
            forall|c: int|
                0 <= c < col && fixed[c] == -1 ==> !attacks(
                    #[trigger] cur[c] as int,
                    c,
                    r as int,
                    col,
                )))),
{
    lemma_full_mask();
    lemma_bit128_or();
    lemma_bit128_andnot();
    assert forall|r: u128| r < 128 implies (#[trigger] bit128(avail, r) <==> (r < n && !bit128(
        masks[col],
        r,
    ) && (forall|c: int|
        0 <= c < col && fixed[c] == -1 ==> !attacks(
            #[trigger] cur[c] as int,
            c,
            r as int,
            col,
        )))) by {
        assert(1 <= n as u128 <= 128);
        assert(bit128(avail, r) <==> (r < n as u128 && !bit128(rows, r) && !bit128(ld, r)
            && !bit128(rd, r) && !bit128(masks[col], r)));
        if bit128(avail, r) {
            assert forall|c: int| 0 <= c < col && fixed[c] == -1 implies !attacks(
                #[trigger] cur[c] as int,
                c,
                r as int,
                col,
            ) by {
                if attacks(cur[c] as int, c, r as int, col) {
                    if cur[c] as int == r as int {
                        assert(row_taken(fixed, cur, col, r as int));
                    } else if cur[c] + c == r + col {
                        assert(cur[c] - (col - c) == r as int);
                        assert(ldiag_taken(fixed, cur, col, r as int));
                    } else {
                        assert(cur[c] - c == r - col);
                        assert(cur[c] + (col - c) == r as int);
                        assert(rdiag_taken(fixed, cur, col, r as int));
                    }
                }
            }
        }
        if r < n && !bit128(masks[col], r) && (forall|c: int|
            0 <= c < col && fixed[c] == -1 ==> !attacks(
                #[trigger] cur[c] as int,
                c,
                r as int,
                col,
            )) {
            if bit128(rows, r) {
                let c = choose|c: int| #![trigger cur[c]] 0 <= c < col && fixed[c] == -1 && cur[c] == r as int;
                assert(attacks(cur[c] as int, c, r as int, col));
            }
            if bit128(ld, r) {
                let c = choose|c: int|
                    #![trigger cur[c]]
                    0 <= c < col && fixed[c] == -1 && cur[c] - (col - c) == r as int;
                assert(attacks(cur[c] as int, c, r as int, col));
            }
            if bit128(rd, r) {
                let c = choose|c: int|
                    #![trigger cur[c]]
                    0 <= c < col && fixed[c] == -1 && cur[c] + (col - c) == r as int;
                assert(attacks(cur[c] as int, c, r as int, col));
            }
            assert(bit128(avail, r));
        }
    }
}

/// A row assignment `qs` solves the instance given by board size `n`, the
/// pre-placed rows `fixed` (-1 marks a free column), and the per-column
/// attack masks `masks`: it keeps every pre-placed queen, puts each freely
/// chosen queen on an unmasked on-board row, and no two freely chosen
/// queens attack each other.  (Pre-placed queens interact with chosen ones
/// only through the masks, and with each other through the builder's
/// conflict check.)
pub open spec fn is_solution(n: int, fixed: Seq<i8>, masks: Seq<u128>, qs: Seq<i8>) -> bool {
    &&& qs.len() == n
    &&& forall|c: int| 0 <= c < n && fixed[c] != -1 ==> #[trigger] qs[c] == fixed[c]
    &&& forall|c: int|
        0 <= c < n && fixed[c] == -1 ==> 0 <= #[trigger] qs[c] < n && !bit128(
            masks[c],
            qs[c] as u128,
        )
    &&& forall|c1: int, c2: int|
        0 <= c1 < c2 < n && fixed[c1] == -1 && fixed[c2] == -1 ==> !attacks(
            #[trigger] qs[c1] as int,
            c1,
            #[trigger] qs[c2] as int,
            c2,
        )
}

/// A solution that moreover agrees with the partial assignment `cur` on the
/// columns before `col`: exactly the solutions still reachable from that
/// point of the search.
pub open spec fn is_completion(
    n: int,
    fixed: Seq<i8>,
    masks: Seq<u128>,
    cur: Seq<i8>,
    col: int,
    qs: Seq<i8>,
) -> bool {
    &&& is_solution(n, fixed, masks, qs)
    &&& forall|c: int| 0 <= c < col ==> #[trigger] qs[c] == cur[c]
}

/// When the masks come from the attack-map builder and the fixed-row vector
/// comes from `Solver::new` for the same non-conflicting pre-placed queens,
/// the solver's notion of a solution coincides with the chess-level one:
/// `qs` solves the instance exactly when it is a valid board that keeps
/// every pre-placed queen.
pub proof fn lemma_solution_characterization(
    n: int,
    qpos: Seq<(u8, u8)>,
    fixed: Seq<i8>,
    masks: Seq<u128>,
    qs: Seq<i8>,
)
    requires
        4 <= n <= 128,
        masks.len() == n,
        fixed.len() == n,
        forall|i: int|
            #![trigger qpos[i]]
            0 <= i < qpos.len() ==> (qpos[i].0 as int) < n && (qpos[i].1 as int) < n,
        forall|i: int, j: int|
            0 <= i < j < qpos.len() ==> (#[trigger] qpos[i].1) != (#[trigger] qpos[j].1),
        !has_conflict(qpos),
        forall|c: int, r: u128|
            0 <= c < n && r < 128 ==> (#[trigger] bit128(masks[c], r) <==> (r < n && attacked(
                qpos,
                r as int,
                c,
            ))),
        forall|i: int|
            #![trigger qpos[i]]
            0 <= i < qpos.len() ==> fixed[qpos[i].1 as int] == qpos[i].0 as i8,
        forall|c: int|
            0 <= c < n && #[trigger] fixed[c] != -1 ==> exists|i: int|
                0 <= i < qpos.len() && (#[trigger] qpos[i].1 as int) == c,
        forall|c: int| 0 <= c < n ==> -1 <= #[trigger] fixed[c] < n,
    ensures
        is_solution(n, fixed, masks, qs) <==> (valid_board(n, qs) && extends(qs, qpos)),
{
    if is_solution(n, fixed, masks, qs) {
        assert forall|i: int| #![trigger qpos[i]] 0 <= i < qpos.len() implies qs[qpos[i].1 as int]
            == qpos[i].0 as i8 by {
            assert(fixed[qpos[i].1 as int] == qpos[i].0 as i8);
            assert(fixed[qpos[i].1 as int] != -1);
        }
        assert forall|c: int| 0 <= c < n implies 0 <= #[trigger] qs[c] < n by {
            if fixed[c] != -1 {
                assert(qs[c] == fixed[c]);
            }
        }
        assert forall|c1: int, c2: int|
            0 <= c1 < c2 < n implies !attacks(
            #[trigger] qs[c1] as int,
            c1,
            #[trigger] qs[c2] as int,
            c2,
        ) by {
            if attacks(qs[c1] as int, c1, qs[c2] as int, c2) {
                if fixed[c1] != -1 && fixed[c2] != -1 {
                    let i = choose|i: int|
                        0 <= i < qpos.len() && (#[trigger] qpos[i].1 as int) == c1;
                    let j = choose|j: int|
                        0 <= j < qpos.len() && (#[trigger] qpos[j].1 as int) == c2;
                    assert(qs[c1] == qpos[i].0 as i8 && qs[c2] == qpos[j].0 as i8);
                    assert(attacks(
                        qpos[i].0 as int,
                        qpos[i].1 as int,
                        qpos[j].0 as int,
                        qpos[j].1 as int,
                    ));
                    if i < j {
                        assert(has_conflict(qpos));
                    } else {
                        assert(j < i);
                        assert(attacks(
                            qpos[j].0 as int,
                            qpos[j].1 as int,
                            qpos[i].0 as int,
                            qpos[i].1 as int,
                        ));
                        assert(has_conflict(qpos));
                    }
                } else if fixed[c1] != -1 && fixed[c2] == -1 {
                    let i = choose|i: int|
                        0 <= i < qpos.len() && (#[trigger] qpos[i].1 as int) == c1;
                    assert(qs[c1] == qpos[i].0 as i8);
                    assert(attacks(qpos[i].0 as int, qpos[i].1 as int, qs[c2] as int, c2));
                    assert(attacked(qpos, qs[c2] as int, c2));
                    assert(bit128(masks[c2], qs[c2] as u128));
                } else if fixed[c1] == -1 && fixed[c2] != -1 {
                    let j = choose|j: int|
                        0 <= j < qpos.len() && (#[trigger] qpos[j].1 as int) == c2;
                    assert(qs[c2] == qpos[j].0 as i8);
                    assert(attacks(qpos[j].0 as int, qpos[j].1 as int, qs[c1] as int, c1));
                    assert(attacked(qpos, qs[c1] as int, c1));
                    assert(bit128(masks[c1], qs[c1] as u128));
                }
            }
        }
    }
    if valid_board(n, qs) && extends(qs, qpos) {
        assert forall|c: int| 0 <= c < n && #[trigger] fixed[c] != -1 implies qs[c] == fixed[c] by {
            let i = choose|i: int| 0 <= i < qpos.len() && (#[trigger] qpos[i].1 as int) == c;
            assert(fixed[c] == qpos[i].0 as i8);
            assert(qs[c] == qpos[i].0 as i8);
        }
        assert forall|c: int| 0 <= c < n && #[trigger] fixed[c] == -1 implies 0 <= qs[c] < n
            && !bit128(masks[c], qs[c] as u128) by {
            if bit128(masks[c], qs[c] as u128) {
                assert(attacked(qpos, qs[c] as int, c));
                let i = choose|i: int|
                    0 <= i < qpos.len() && attacks(
                        #[trigger] qpos[i].0 as int,
                        qpos[i].1 as int,
                        qs[c] as int,
                        c,
                    );
                let c2 = qpos[i].1 as int;
                assert(qs[c2] == qpos[i].0 as i8);
                assert(c2 != c);
                if c2 < c {
                    assert(attacks(qs[c2] as int, c2, qs[c] as int, c));
                } else {
                    assert(attacks(qs[c] as int, c, qs[c2] as int, c2));
                }
            }
        }
    }
}

/// The recorded solutions are in strictly increasing lexicographic order
/// (so in particular there are no duplicates).
pub open spec fn sols_sorted(sols: Seq<Vec<i8>>) -> bool {
    forall|i: int, j: int| 0 <= i < j < sols.len() ==> lex_lt(#[trigger] sols[i]@, #[trigger] sols[j]@)
}

/// Copy a row assignment, to snapshot a completed solution.
fn copy_row(v: &Vec<i8>) -> (r: Vec<i8>)
    ensures
        r@ == v@,
{
    let mut out: Vec<i8> = Vec::new();
    for i in 0..v.len()
        invariant
            out@.len() == i,
            forall|k: int| 0 <= k < i ==> #[trigger] out@[k] == v@[k],
    {
        out.push(v[i]);
    }
    proof {
        assert(out@ =~= v@);
    }
    out
}

/// A solver for the n-queens problem: board size, per-column attack masks,
/// the pre-placed queens as a row-per-column vector (-1 = free column), and
/// whether to stop after the first solution.
pub struct Solver {
    pub n: usize,
    pub queens: Vec<i8>,
    pub solutions: Vec<Vec<i8>>,
    pub only_one_solution: bool,
    pub bitsets: Vec<u128>,
    pub all_ones: u128,
    pub solved: bool,
    pub solution_found: bool,
}

impl Solver {
    /// The solver's invariant, established by `new` and kept by `solve`.
    pub open spec fn wf(&self) -> bool {
        &&& 4 <= self.n <= 128
        &&& self.queens@.len() == self.n
        &&& forall|c: int| 0 <= c < self.n ==> -1 <= #[trigger] self.queens@[c] < self.n
        &&& self.bitsets@.len() == self.n
        &&& self.all_ones == full_mask(self.n as u128)
        &&& self.solution_found == (self.solutions@.len() > 0)
        &&& (!self.solved ==> self.solutions@.len() == 0)
    }

    /// Create a solver from the board size, the per-column attack masks,
    /// the pre-placed queens (distinct columns), and the search mode.
    pub fn new(
        n: usize,
        bitsets: Vec<u128>,
        queens_positions: Vec<(u8, u8)>,
        only_one_solution: bool,
    ) -> (s: Solver)
        requires
            4 <= n <= 128,
            bitsets@.len() == n,
            forall|i: int|
                #![trigger queens_positions@[i]]
                0 <= i < queens_positions@.len() ==> (queens_positions@[i].0 as int) < n && (
                queens_positions@[i].1 as int) < n,
            forall|i: int, j: int|
                0 <= i < j < queens_positions@.len() ==> (#[trigger] queens_positions@[i].1) != (
                #[trigger] queens_positions@[j].1),
        ensures
            s.wf(),
            s.n == n,
            s.bitsets@ == bitsets@,
            s.only_one_solution == only_one_solution,
            !s.solved,
            s.solutions@.len() == 0,
            s.queens@.len() == n,
            forall|i: int|
                #![trigger queens_positions@[i]]
                0 <= i < queens_positions@.len() ==> s.queens@[queens_positions@[i].1 as int]
                    == queens_positions@[i].0 as i8,
            forall|c: int|
                0 <= c < n && #[trigger] s.queens@[c] != -1 ==> exists|i: int|
                    0 <= i < queens_positions@.len() && (#[trigger] queens_positions@[i].1 as int)
                        == c,
    {
        let all_ones: u128 = u128::MAX >> ((128 - n) as u128);
        proof {
            assert(all_ones == full_mask(n as u128));
        }
        let mut queens: Vec<i8> = Vec::new();
        for c in 0..n
            invariant
                queens@.len() == c,
                forall|cc: int| 0 <= cc < c ==> #[trigger] queens@[cc] == -1i8,
        {
            queens.push(-1);
        }
        for k in 0..queens_positions.len()
            invariant
                n <= 128,
                queens@.len() == n,
                forall|i: int|
                    #![trigger queens_positions@[i]]
                    0 <= i < queens_positions@.len() ==> (queens_positions@[i].0 as int) < n && (
                    queens_positions@[i].1 as int) < n,
                forall|i: int, j: int|
                    0 <= i < j < queens_positions@.len() ==> (#[trigger] queens_positions@[i].1)
                        != (#[trigger] queens_positions@[j].1),
                forall|i: int|
                    #![trigger queens_positions@[i]]
                    0 <= i < k ==> queens@[queens_positions@[i].1 as int]
                        == queens_positions@[i].0 as i8,
                forall|c: int|
                    0 <= c < n && #[trigger] queens@[c] != -1 ==> exists|i: int|
                        0 <= i < k && (#[trigger] queens_positions@[i].1 as int) == c,
        {
            let q = queens_positions[k];
            queens[q.1 as usize] = q.0 as i8;
        }
        Solver {
            n,
            queens,
            solutions: Vec::new(),
            only_one_solution,
            bitsets,
            all_ones,
            solved: false,
            solution_found: false,
        }
    }

    /// The column-by-column backtracking search.  Appends to `solutions`
    /// exactly the completions of the current partial assignment (all of
    /// them, or just the lexicographically first one in single-solution
    /// mode), in lexicographic order.
    fn solve_recursive(
        &mut self,
        rows: u128,
        left_diagonals: u128,
        right_diagonals: u128,
        col: usize,
        Ghost(fixed): Ghost<Seq<i8>>,
    )
        requires
            partial_ok(
                old(self).n as int,
                fixed,
                old(self).bitsets@,
                old(self).queens@,
                col as int,
            ),
            masks_ok(rows, left_diagonals, right_diagonals, fixed, old(self).queens@, col as int),
            old(self).all_ones == full_mask(old(self).n as u128),
            old(self).solution_found == (old(self).solutions@.len() > 0),
            sols_sorted(old(self).solutions@),
            forall|i: int, qs: Seq<i8>|
                0 <= i < old(self).solutions@.len() && #[trigger] is_completion(
                    old(self).n as int,
                    fixed,
                    old(self).bitsets@,
                    old(self).queens@,
                    col as int,
                    qs,
                ) ==> lex_lt(#[trigger] old(self).solutions@[i]@, qs),
        ensures
            final(self).n == old(self).n,
            final(self).bitsets == old(self).bitsets,
            final(self).all_ones == old(self).all_ones,
            final(self).only_one_solution == old(self).only_one_solution,
            final(self).solved == old(self).solved,
            final(self).queens@ == old(self).queens@,
            old(self).solutions@.len() <= final(self).solutions@.len(),
            forall|i: int|
                0 <= i < old(self).solutions@.len() ==> #[trigger] final(self).solutions@[i]
                    == old(self).solutions@[i],
            final(self).solution_found == (final(self).solutions@.len() > 0),
            old(self).solution_found && old(self).only_one_solution ==> final(self).solutions@
                == old(self).solutions@,
            forall|k: int|
                old(self).solutions@.len() <= k < final(self).solutions@.len() ==> is_completion(
                    old(self).n as int,
                    fixed,
                    old(self).bitsets@,
                    old(self).queens@,
                    col as int,
                    #[trigger] final(self).solutions@[k]@,
                ),
            sols_sorted(final(self).solutions@),
            !old(self).only_one_solution ==> forall|qs: Seq<i8>|
                #[trigger] is_completion(
                    old(self).n as int,
                    fixed,
                    old(self).bitsets@,
                    old(self).queens@,
                    col as int,
                    qs,
                ) ==> exists|k: int|
                    0 <= k < final(self).solutions@.len() && final(self).solutions@[k]@ == qs,
            old(self).only_one_solution && !old(self).solution_found ==> forall|qs: Seq<i8>|
                #[trigger] is_completion(
                    old(self).n as int,
                    fixed,
                    old(self).bitsets@,
                    old(self).queens@,
                    col as int,
                    qs,
                ) ==> (final(self).solutions@.len() == 1 && lex_le(final(self).solutions@[0]@, qs)),
        decreases old(self).n - col,
    {
        if self.solution_found && self.only_one_solution {
            return;
        }
        let ghost pre = *self;
        let ghost n_i = self.n as int;
        let ghost masksg = self.bitsets@;
        let ghost cur = self.queens@;

        if col == self.n {
            let snapshot = copy_row(&self.queens);
            self.solutions.push(snapshot);
            self.solution_found = true;
            proof {
                assert(is_completion(n_i, fixed, masksg, cur, col as int, cur));
                assert forall|qs: Seq<i8>|
                    #[trigger] is_completion(n_i, fixed, masksg, cur, col as int, qs) implies qs
                    == cur by {
                    assert(qs =~= cur);
                }
                assert(self.solutions@ == pre.solutions@.push(self.solutions@[pre.solutions@.len() as int]));
                assert forall|i: int, j: int|
                    0 <= i < j < self.solutions@.len() implies lex_lt(
                    #[trigger] self.solutions@[i]@,
                    #[trigger] self.solutions@[j]@,
                ) by {
                    if j == pre.solutions@.len() {
                        assert(is_completion(n_i, fixed, masksg, cur, col as int, cur));
                        assert(lex_lt(pre.solutions@[i]@, cur));
                    }
                }
            }
            return;
        }

        if self.queens[col] != -1 {
            proof {
                lemma_advance_fixed(
                    rows,
                    left_diagonals,
                    right_diagonals,
                    fixed,
                    cur,
                    col as int,
                    n_i,
                );
                assert(cur[col as int] == fixed[col as int]);
                assert forall|qs: Seq<i8>|
                    #![trigger is_completion(n_i, fixed, masksg, cur, col as int, qs)]
                    #![trigger is_completion(n_i, fixed, masksg, cur, col as int + 1, qs)]
                    is_completion(n_i, fixed, masksg, cur, col as int, qs) <==> is_completion(
                        n_i,
                        fixed,
                        masksg,
                        cur,
                        col as int + 1,
                        qs,
                    ) by {
                    if is_completion(n_i, fixed, masksg, cur, col as int, qs) {
                        assert(qs[col as int] == fixed[col as int]);
                    }
                }
            }
            self.solve_recursive(
                rows,
                left_diagonals >> 1u128,
                right_diagonals << 1u128,
                col + 1,
                Ghost(fixed),
            );
            return;
        }

        let available: u128 = self.all_ones & !(rows | left_diagonals | right_diagonals
            | self.bitsets[col]);
        let n = self.n;
        proof {
            assert(available == full_mask(n_i as u128) & !(rows | left_diagonals | right_diagonals
                | masksg[col as int]));
        }
        for r in 0..n
            invariant
                pre == *old(self),
                self.all_ones == full_mask(n_i as u128),
                self.n == pre.n,
                self.bitsets == pre.bitsets,
                self.all_ones == pre.all_ones,
                self.only_one_solution == pre.only_one_solution,
                self.solved == pre.solved,
                self.queens@ == cur,
                n == pre.n,
                n_i == pre.n as int,
                col < n,
                fixed[col as int] == -1,
                masksg == pre.bitsets@,
                cur == pre.queens@,
                partial_ok(n_i, fixed, masksg, cur, col as int),
                masks_ok(rows, left_diagonals, right_diagonals, fixed, cur, col as int),
                available == full_mask(n_i as u128) & !(rows | left_diagonals | right_diagonals
                    | masksg[col as int]),
                pre.solutions@.len() <= self.solutions@.len(),
                forall|i: int|
                    0 <= i < pre.solutions@.len() ==> #[trigger] self.solutions@[i]
                        == pre.solutions@[i],
                self.solution_found == (self.solutions@.len() > 0),
                sols_sorted(self.solutions@),
                forall|k: int|
                    pre.solutions@.len() <= k < self.solutions@.len() ==> is_completion(
                        n_i,
                        fixed,
                        masksg,
                        cur,
                        col as int,
                        #[trigger] self.solutions@[k]@,
                    ) && 0 <= self.solutions@[k]@[col as int] < r,
                forall|i: int, qs: Seq<i8>|
                    0 <= i < self.solutions@.len() && #[trigger] is_completion(
                        n_i,
                        fixed,
                        masksg,
                        cur,
                        col as int,
                        qs,
                    ) && qs[col as int] >= r ==> lex_lt(#[trigger] self.solutions@[i]@, qs),
                !pre.only_one_solution ==> forall|qs: Seq<i8>|
                    #[trigger] is_completion(n_i, fixed, masksg, cur, col as int, qs) && qs[col as int]
                        < r ==> exists|k: int|
                        0 <= k < self.solutions@.len() && self.solutions@[k]@ == qs,
                pre.only_one_solution ==> pre.solutions@.len() == 0,
                pre.only_one_solution ==> self.solutions@.len() <= 1,
                pre.only_one_solution ==> forall|qs: Seq<i8>|
                    #[trigger] is_completion(n_i, fixed, masksg, cur, col as int, qs) && qs[col as int]
                        < r ==> (self.solutions@.len() == 1 && lex_le(self.solutions@[0]@, qs)),
        {
            proof {
                lemma_available_bits(
                    n_i,
                    fixed,
                    masksg,
                    cur,
                    col as int,
                    rows,
                    left_diagonals,
                    right_diagonals,
                    available,
                );
            }
            if available & (1u128 << (r as u128)) != 0 {
                let position: u128 = 1u128 << (r as u128);
                let ghost cur2 = cur.update(col as int, r as i8);
                let ghost sols_a = self.solutions@;
                proof {
                    assert(bit128(available, r as u128));
                    assert(r < n_i && !bit128(masksg[col as int], r as u128));
                    lemma_advance_chosen(
                        rows,
                        left_diagonals,
                        right_diagonals,
                        fixed,
                        cur,
                        col as int,
                        n_i,
                        r as i8,
                    );
                    assert forall|qs: Seq<i8>|
                        #![trigger is_completion(n_i, fixed, masksg, cur2, col as int + 1, qs)]
                        #![trigger is_completion(n_i, fixed, masksg, cur, col as int, qs)]
                        is_completion(n_i, fixed, masksg, cur2, col as int + 1, qs) <==> (
                        is_completion(n_i, fixed, masksg, cur, col as int, qs) && qs[col as int]
                            == r as i8) by {
                        if is_completion(n_i, fixed, masksg, cur2, col as int + 1, qs) {
                            assert forall|c: int| 0 <= c < col as int implies #[trigger] qs[c]
                                == cur[c] by {
                                assert(qs[c] == cur2[c]);
                            }
                            assert(qs[col as int] == cur2[col as int]);
                        }
                        if is_completion(n_i, fixed, masksg, cur, col as int, qs) && qs[col as int]
                            == r as i8 {
                            assert forall|c: int| 0 <= c < col as int + 1 implies #[trigger] qs[c]
                                == cur2[c] by {
                                if c < col as int {
                                    assert(qs[c] == cur[c]);
                                }
                            }
                        }
                    }
                }
                self.queens[col] = r as i8;
                proof {
                    assert(self.queens@ =~= cur2);
                    // the new queen is compatible with every earlier chosen queen
                    assert(partial_ok(n_i, fixed, masksg, cur2, col as int + 1)) by {
                        assert forall|c1: int, c2: int|
                            0 <= c1 < c2 < col as int + 1 && fixed[c1] == -1 && fixed[c2] == -1
                                implies !attacks(
                            #[trigger] cur2[c1] as int,
                            c1,
                            #[trigger] cur2[c2] as int,
                            c2,
                        ) by {
                            if c2 == col as int {
                                assert(cur2[c1] == cur[c1]);
                                assert(!attacks(cur[c1] as int, c1, r as int, col as int));
                            } else {
                                assert(cur2[c1] == cur[c1] && cur2[c2] == cur[c2]);
                            }
                        }
                    }
                }
                self.solve_recursive(
                    rows | position,
                    (left_diagonals | position) >> 1u128,
                    (right_diagonals | position) << 1u128,
                    col + 1,
                    Ghost(fixed),
                );
                self.queens[col] = -1;
                proof {
                    assert(cur[col as int] == fixed[col as int]);
                    assert(self.queens@ =~= cur);
                    // every solution recorded by the recursive call chose row r here
                    assert forall|k: int|
                        pre.solutions@.len() <= k < self.solutions@.len() implies is_completion(
                        n_i,
                        fixed,
                        masksg,
                        cur,
                        col as int,
                        #[trigger] self.solutions@[k]@,
                    ) && 0 <= self.solutions@[k]@[col as int] < r + 1 by {
                        if k < sols_a.len() {
                            assert(self.solutions@[k] == sols_a[k]);
                        } else {
                            assert(is_completion(
                                n_i,
                                fixed,
                                masksg,
                                cur2,
                                col as int + 1,
                                self.solutions@[k]@,
                            ));
                        }
                    }
                    // everything recorded so far precedes the still-open branches
                    assert forall|i: int, qs: Seq<i8>|
                        0 <= i < self.solutions@.len() && #[trigger] is_completion(
                            n_i,
                            fixed,
                            masksg,
                            cur,
                            col as int,
                            qs,
                        ) && qs[col as int] >= r + 1 implies lex_lt(
                        #[trigger] self.solutions@[i]@,
                        qs,
                    ) by {
                        if i < sols_a.len() {
                            assert(self.solutions@[i] == sols_a[i]);
                        } else {
                            assert(is_completion(
                                n_i,
                                fixed,
                                masksg,
                                cur,
                                col as int,
                                self.solutions@[i]@,
                            ) && self.solutions@[i]@[col as int] == r as i8);
                            lemma_lex_lt_at(self.solutions@[i]@, qs, col as int);
                        }
                    }
                    // every completion handled so far is recorded (find-all mode)
                    if !pre.only_one_solution {
                        assert forall|qs: Seq<i8>|
                            #[trigger] is_completion(n_i, fixed, masksg, cur, col as int, qs)
                                && qs[col as int] < r + 1 implies exists|k: int|
                            0 <= k < self.solutions@.len() && self.solutions@[k]@ == qs by {
                            if qs[col as int] < r {
                                let k = choose|k: int|
                                    0 <= k < sols_a.len() && sols_a[k]@ == qs;
                                assert(self.solutions@[k] == sols_a[k]);
                                assert(0 <= k < self.solutions@.len() && self.solutions@[k]@
                                    == qs);
                            } else {
                                assert(qs[col as int] == r as i8);
                                assert(is_completion(n_i, fixed, masksg, cur2, col as int + 1, qs));
                            }
                        }
                    }
                    // single-solution bookkeeping
                    if pre.only_one_solution {
                        assert forall|qs: Seq<i8>|
                            #[trigger] is_completion(n_i, fixed, masksg, cur, col as int, qs)
                                && qs[col as int] < r + 1 implies (self.solutions@.len() == 1
                            && lex_le(self.solutions@[0]@, qs)) by {
                            if sols_a.len() == 1 {
                                assert(self.solutions@ == sols_a);
                                assert(self.solutions@[0] == sols_a[0]);
                                if qs[col as int] < r {
                                } else {
                                    assert(qs[col as int] == r as i8);
                                    assert(0 <= sols_a[0]@[col as int] < r);
                                    lemma_lex_lt_at(sols_a[0]@, qs, col as int);
                                }
                            } else {
                                assert(sols_a.len() == 0);
                                if qs[col as int] < r {
                                    assert(false);
                                } else {
                                    assert(qs[col as int] == r as i8);
                                    assert(is_completion(
                                        n_i,
                                        fixed,
                                        masksg,
                                        cur2,
                                        col as int + 1,
                                        qs,
                                    ));
                                    assert(self.solutions@.len() == 1 && lex_le(
                                        self.solutions@[0]@,
                                        qs,
                                    ));
                                }
                            }
                        }
                        assert(self.solutions@.len() <= 1) by {
                            if sols_a.len() == 1 {
                                assert(self.solutions@ == sols_a);
                            } else if self.solutions@.len() > 0 {
                                assert(is_completion(
                                    n_i,
                                    fixed,
                                    masksg,
                                    cur2,
                                    col as int + 1,
                                    self.solutions@[0]@,
                                ));
                            }
                        }
                    }
                }
            } else {
                proof {
                    assert forall|qs: Seq<i8>|
                        #[trigger] is_completion(n_i, fixed, masksg, cur, col as int, qs) implies
                        qs[col as int] != r as i8 by {
                        if qs[col as int] == r as i8 {
                            assert(0 <= qs[col as int] < n_i);
                            assert(!bit128(masksg[col as int], qs[col as int] as u128));
                            assert forall|c: int|
                                0 <= c < col as int && fixed[c] == -1 implies !attacks(
                                #[trigger] cur[c] as int,
                                c,
                                r as int,
                                col as int,
                            ) by {
                                assert(qs[c] == cur[c]);
                                assert(!attacks(qs[c] as int, c, qs[col as int] as int, col as int));
                            }
                            assert(bit128(available, r as u128));
                        }
                    }
                }
            }
        }
        proof {
            assert forall|qs: Seq<i8>|
                #[trigger] is_completion(n_i, fixed, masksg, cur, col as int, qs) implies 0 <= qs[col as int]
                < n by {
                assert(fixed[col as int] == -1);
            }
        }
    }

    /// Solve the n-queens problem according to the solver's configuration.
    ///
    /// On the first call the solutions are computed and stored, in
    /// discovery (= lexicographic) order: all of them, or, with
    /// `only_one_solution`, just the lexicographically first one if any
    /// exists.  Later calls find the work done and leave the solver
    /// untouched, so running `solve` again returns identical results.
    pub fn solve(&mut self)
        requires
            old(self).wf(),
        ensures
            final(self).wf(),
            final(self).solved,
            final(self).n == old(self).n,
            final(self).bitsets == old(self).bitsets,
            final(self).all_ones == old(self).all_ones,
            final(self).only_one_solution == old(self).only_one_solution,
            final(self).queens@ == old(self).queens@,
            old(self).solved ==> *final(self) == *old(self),
            !old(self).solved ==> forall|k: int|
                0 <= k < final(self).solutions@.len() ==> is_solution(
                    old(self).n as int,
                    old(self).queens@,
                    old(self).bitsets@,
                    #[trigger] final(self).solutions@[k]@,
                ),
            !old(self).solved ==> sols_sorted(final(self).solutions@),
            !old(self).solved && !old(self).only_one_solution ==> forall|qs: Seq<i8>|
                #[trigger] is_solution(old(self).n as int, old(self).queens@, old(self).bitsets@, qs)
                    ==> exists|k: int|
                    0 <= k < final(self).solutions@.len() && final(self).solutions@[k]@ == qs,
            !old(self).solved && old(self).only_one_solution ==> final(self).solutions@.len() <= 1,
            !old(self).solved && old(self).only_one_solution ==> forall|qs: Seq<i8>|
                #[trigger] is_solution(old(self).n as int, old(self).queens@, old(self).bitsets@, qs)
                    ==> (final(self).solutions@.len() == 1 && lex_le(
                    final(self).solutions@[0]@,
                    qs,
                )),
            final(self).solution_found == (final(self).solutions@.len() > 0),
    {
        if self.solved {
            return;
        }
        let ghost fixedg = self.queens@;
        let ghost n_i = self.n as int;
        let ghost masksg = self.bitsets@;
        proof {
            lemma_bit128_zero();
            assert(masks_ok(0, 0, 0, fixedg, self.queens@, 0));
            assert(partial_ok(n_i, fixedg, masksg, self.queens@, 0));
        }
        self.solve_recursive(0, 0, 0, 0, Ghost(fixedg));
        self.solved = true;
        proof {
            if self.only_one_solution && self.solutions@.len() > 0 {
                assert(is_completion(n_i, fixedg, masksg, fixedg, 0, self.solutions@[0]@));
                assert(self.solutions@.len() == 1);
            }
            assert forall|qs: Seq<i8>|
                #![trigger is_completion(n_i, fixedg, masksg, fixedg, 0, qs)]
                #![trigger is_solution(n_i, fixedg, masksg, qs)]
                is_completion(n_i, fixedg, masksg, fixedg, 0, qs) <==> is_solution(
                    n_i,
                    fixedg,
                    masksg,
                    qs,
                ) by {}
        }
    }
}

} // verus!
