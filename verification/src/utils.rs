//! The attack-map builder: given the board size and the pre-placed queens,
//! derive one bitmask per column marking every row a future queen may not
//! use, and detect mutually attacking pre-placed queens.

use vstd::prelude::*;
use crate::bits::bit128;
use crate::bits::lemma_bit128_or;
use crate::bits::lemma_bit128_single;
use crate::bits::lemma_bit128_zero;
use crate::board::attacked;
use crate::board::attacks;
use crate::board::has_conflict;

verus! {

/// Two of the pre-placed queens occupy the same square or attack each other.
#[derive(Clone, Copy, Debug, PartialEq, Eq, Structural)]
pub struct ConflictError;

/// Why a textual board row was rejected.
#[derive(Clone, Copy, Debug, PartialEq, Eq, Structural)]
pub enum ParseError {
    /// The row does not hold exactly `n` characters.
    WrongLength,
    /// The row holds a character other than 'Q' and '0'.
    BadCharacter,
}

/// Column `j` of the parsed row list `ps` holds a queen.
pub open spec fn found_in_row(ps: Seq<(u8, u8)>, j: int) -> bool {
    exists|k: int| 0 <= k < ps.len() && ((#[trigger] ps[k]).1 as int) == j
}

/// Parse one row of a textual board: `line` must hold exactly `n` bytes,
/// each 'Q' (a queen) or '0' (an empty square).  Returns the queens of the
/// row as (row, column) pairs in ascending column order.
pub fn parse_board_row(n: usize, row: u8, line: &Vec<u8>) -> (result: Result<
    Vec<(u8, u8)>,
    ParseError,
>)
    requires
        n <= 128,
        (row as int) < n,
    ensures
        result is Ok <==> (line@.len() == n && forall|j: int|
            0 <= j < n ==> line@[j] == 81u8 || line@[j] == 48u8),
        result matches Ok(found) ==> forall|k: int|
            0 <= k < found@.len() ==> (#[trigger] found@[k]).0 == row && (found@[k].1 as int) < n
                && line@[found@[k].1 as int] == 81u8,
        result matches Ok(found) ==> forall|k1: int, k2: int|
            0 <= k1 < k2 < found@.len() ==> (#[trigger] found@[k1]).1 < (#[trigger] found@[k2]).1,
        result matches Ok(found) ==> forall|j: int|
            0 <= j < n && line@[j] == 81u8 ==> found_in_row(found@, j),
        result matches Err(e) ==> (e == ParseError::WrongLength <==> line@.len() != n),
{
    if line.len() != n {
        return Err(ParseError::WrongLength);
    }
    let mut ps: Vec<(u8, u8)> = Vec::new();
    for j in 0..n
        invariant
            n <= 128,
            (row as int) < n,
            line@.len() == n,
            forall|jj: int| 0 <= jj < j ==> line@[jj] == 81u8 || line@[jj] == 48u8,
            forall|k: int|
                0 <= k < ps@.len() ==> (#[trigger] ps@[k]).0 == row && (ps@[k].1 as int) < j
                    && line@[ps@[k].1 as int] == 81u8,
            forall|k1: int, k2: int|
                0 <= k1 < k2 < ps@.len() ==> (#[trigger] ps@[k1]).1 < (#[trigger] ps@[k2]).1,
            forall|jj: int| 0 <= jj < j && line@[jj] == 81u8 ==> found_in_row(ps@, jj),
    {
        let ch = line[j];
        if ch == 81u8 {
            let ghost old_ps = ps@;
            ps.push((row, j as u8));
            proof {
                assert forall|jj: int| 0 <= jj < j + 1 && line@[jj] == 81u8 implies found_in_row(
                    ps@,
                    jj,
                ) by {
                    if jj == j {
                        assert(((ps@[ps@.len() - 1]).1 as int) == jj);
                    } else {
                        let k = choose|k: int|
                            0 <= k < old_ps.len() && ((#[trigger] old_ps[k]).1 as int) == jj;
                        assert(0 <= k < ps@.len() && ((ps@[k]).1 as int) == jj);
                    }
                }
            }
        } else if ch != 48u8 {
            return Err(ParseError::BadCharacter);
        }
    }
    Ok(ps)
}

/// Whether the queens on squares `a` and `b` attack each other (a square
/// also attacks itself).
fn squares_attack(a: (u8, u8), b: (u8, u8)) -> (res: bool)
    ensures
        res == attacks(a.0 as int, a.1 as int, b.0 as int, b.1 as int),
{
    let r1: u16 = a.0 as u16;
    let c1: u16 = a.1 as u16;
    let r2: u16 = b.0 as u16;
    let c2: u16 = b.1 as u16;
    r1 == r2 || c1 == c2 || r1 + c1 == r2 + c2 || r1 + c2 == r2 + c1
}

/// Whether square (r, c) is occupied or attacked by any of the queens.
fn attacked_by_any(queens: &Vec<(u8, u8)>, r: usize, c: usize) -> (res: bool)
    requires
        r < 128,
        c < 128,
    ensures
        res == attacked(queens@, r as int, c as int),
{
    for j in 0..queens.len()
        invariant
            r < 128,
            c < 128,
            forall|i: int|
                0 <= i < j ==> !attacks(
                    #[trigger] queens@[i].0 as int,
                    queens@[i].1 as int,
                    r as int,
                    c as int,
                ),
    {
        if squares_attack(queens[j], (r as u8, c as u8)) {
            return true;
        }
    }
    false
}

/// Build one attack bitmask per column: bit `r` of column `c`'s mask is set
/// exactly when square (r, c) is occupied or attacked by a pre-placed queen.
/// Fails with `ConflictError` exactly when two pre-placed queens occupy the
/// same square or attack each other.
pub fn generate_bitset_columns(n: usize, queens: &Vec<(u8, u8)>) -> (result: Result<
    Vec<u128>,
    ConflictError,
>)
    requires
        4 <= n <= 128,
        forall|i: int|
            #![trigger queens@[i]]
            0 <= i < queens@.len() ==> (queens@[i].0 as int) < n && (queens@[i].1 as int) < n,
    ensures
        match result {
            Ok(masks) => {
                &&& !has_conflict(queens@)
                &&& masks@.len() == n
                &&& forall|c: int, r: u128|
                    0 <= c < n && r < 128 ==> (#[trigger] bit128(masks@[c], r) <==> (r < n
                        && attacked(queens@, r as int, c)))
            },
            Err(_) => has_conflict(queens@),
        },
{
    for j in 0..queens.len()
        invariant
            forall|i1: int, i2: int|
                0 <= i1 < i2 < j ==> !attacks(
                    #[trigger] queens@[i1].0 as int,
                    queens@[i1].1 as int,
                    #[trigger] queens@[i2].0 as int,
                    queens@[i2].1 as int,
                ),
    {
        for i in 0..j
            invariant
                i <= j < queens@.len(),
                forall|i1: int, i2: int|
                    0 <= i1 < i2 < j ==> !attacks(
                        #[trigger] queens@[i1].0 as int,
                        queens@[i1].1 as int,
                        #[trigger] queens@[i2].0 as int,
                        queens@[i2].1 as int,
                    ),
                forall|i1: int|
                    0 <= i1 < i ==> !attacks(
                        #[trigger] queens@[i1].0 as int,
                        queens@[i1].1 as int,
                        queens@[j as int].0 as int,
                        queens@[j as int].1 as int,
                    ),
        {
            if squares_attack(queens[i], queens[j]) {
                proof {
                    assert(0 <= i < j < queens@.len() && attacks(
                        queens@[i as int].0 as int,
                        queens@[i as int].1 as int,
                        queens@[j as int].0 as int,
                        queens@[j as int].1 as int,
                    ));
                }
                return Err(ConflictError);
            }
        }
    }
    proof {
        assert(!has_conflict(queens@)) by {
            if has_conflict(queens@) {
                let (i, j) = choose|i: int, j: int|
                    0 <= i < j < queens@.len() && attacks(
                        #[trigger] queens@[i].0 as int,
                        queens@[i].1 as int,
                        #[trigger] queens@[j].0 as int,
                        queens@[j].1 as int,
                    );
                assert(!attacks(
                    queens@[i].0 as int,
                    queens@[i].1 as int,
                    queens@[j].0 as int,
                    queens@[j].1 as int,
                ));
            }
        }
    }
    let mut masks: Vec<u128> = Vec::new();
    for c in 0..n
        invariant
            4 <= n <= 128,
            forall|i: int|
                #![trigger queens@[i]]
                0 <= i < queens@.len() ==> (queens@[i].0 as int) < n && (queens@[i].1 as int) < n,
            masks@.len() == c,
            forall|cc: int, r: u128|
                0 <= cc < c && r < 128 ==> (#[trigger] bit128(masks@[cc], r) <==> (r < n
                    && attacked(queens@, r as int, cc))),
    {
        let mut m: u128 = 0;
        proof {
            lemma_bit128_zero();
        }
        for r in 0..n
            invariant
                4 <= n <= 128,
                r <= n,
                c < n,
                forall|i: int|
                    #![trigger queens@[i]]
                    0 <= i < queens@.len() ==> (queens@[i].0 as int) < n && (queens@[i].1 as int)
                        < n,
                forall|b: u128|
                    b < 128 ==> (#[trigger] bit128(m, b) <==> (b < r && attacked(
                        queens@,
                        b as int,
                        c as int,
                    ))),
        {
            if attacked_by_any(queens, r, c) {
                proof {
                    lemma_bit128_or();
                    lemma_bit128_single();
                }
                m = m | (1u128 << (r as u128));
            }
        }
        masks.push(m);
    }
    Ok(masks)
}

} // verus!
