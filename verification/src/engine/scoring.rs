//! Arithmetic that the evaluators share: weighted sums of counts, division
//! rounded towards zero, and the cut to the range of evaluations.

use crate::algorithm::judge::{is_eval, Eval, MAX_EVAL, MIN_EVAL};
use crate::board::stats::Count;
use vstd::prelude::*;

verus! {

/// `a / b`, rounded towards zero.
pub open spec fn toward_zero(a: int, b: int) -> int {
    if a >= 0 {
        a / b
    } else {
        -((-a) / b)
    }
}

/// The evaluation nearest to `v`.
pub open spec fn to_eval(v: int) -> Eval {
    if v < MIN_EVAL {
        MIN_EVAL
    } else if v > MAX_EVAL {
        MAX_EVAL
    } else {
        v as Eval
    }
}

/// `v` without its sign.
pub open spec fn magnitude(v: int) -> int {
    if v < 0 {
        -v
    } else {
        v
    }
}

/// `v` halved `k` times over, rounded down each time.
pub open spec fn halved(v: int, k: int) -> int
    decreases k,
{
    if k <= 0 {
        v
    } else {
        halved(v / 2, k - 1)
    }
}

/// The kinds of weights.
pub const BALANCE: u8 = 0;

pub const CENTER: u8 = 1;

pub const ROW: u8 = 2;

pub const COLUMN: u8 = 3;

pub const ROW_FULL: u8 = 4;

pub const ROW_EMPTY: u8 = 5;

pub const WING: u8 = 6;

/// The weight of index `i` in a weighted sum of the given kind: `BALANCE`
/// and `CENTER` weigh columns by their distance from the middle, `ROW`
/// weighs a row by its number, `COLUMN` favours the middle columns, `WING`
/// tells the two wings apart, `ROW_FULL` and `ROW_EMPTY` weigh the rows on
/// a full and on an empty board.
pub open spec fn spec_weight(kind: int, i: int) -> int {
    if kind == BALANCE {
        if i == 0 {
            -54
        } else if i == 1 {
            -52
        } else if i == 2 {
            -48
        } else if i == 3 {
            -42
        } else if i == 4 {
            -10
        } else if i == 5 {
            10
        } else if i == 6 {
            42
        } else if i == 7 {
            48
        } else if i == 8 {
            52
        } else {
            54
        }
    } else if kind == CENTER {
        if i == 0 || i == 9 {
            -16
        } else if i == 1 || i == 8 {
            -8
        } else if i == 2 || i == 7 {
            6
        } else if i == 3 || i == 6 {
            8
        } else {
            10
        }
    } else if kind == ROW {
        if 0 <= i <= 9 {
            i
        } else {
            0
        }
    } else if kind == COLUMN {
        if i == 0 || i == 9 {
            0
        } else if i == 1 || i == 8 {
            1
        } else if i == 2 || i == 7 {
            3
        } else if i == 3 || i == 6 {
            7
        } else {
            15
        }
    } else if kind == ROW_FULL {
        if i == 0 {
            8
        } else if i == 1 || i == 9 {
            7
        } else if i == 2 || i == 8 {
            5
        } else if i == 3 || i == 7 {
            1
        } else if i == 4 || i == 6 {
            -7
        } else {
            -23
        }
    } else if kind == ROW_EMPTY {
        if i == 0 {
            -15
        } else if i == 1 {
            -23
        } else if i == 2 {
            -7
        } else if i == 3 {
            1
        } else if i == 4 {
            5
        } else {
            i + 2
        }
    } else {
        if i <= 4 {
            i - 6
        } else {
            i - 3
        }
    }
}

/// The sum of the first `n` of `counts`, each with its weight.
pub open spec fn dot(kind: int, counts: Seq<Count>, n: int) -> int
    decreases n,
{
    if n <= 0 {
        0
    } else {
        dot(kind, counts, n - 1) + spec_weight(kind, n - 1) * counts[n - 1]
    }
}

pub proof fn lemma_dot_bound(kind: int, counts: Seq<Count>, n: int)
    requires
        0 <= kind <= 6,
        0 <= n <= 10,
        counts.len() == 10,
        forall|i: int| 0 <= i < 10 ==> 0 <= #[trigger] counts[i] <= 50,
    ensures
        -2700 * n <= dot(kind, counts, n) <= 2700 * n,
    decreases n,
{
    if n > 0 {
        lemma_dot_bound(kind, counts, n - 1);
        let w = spec_weight(kind, n - 1);
        let c = counts[n - 1];
        assert(-54 <= w <= 54);
        assert(-2700 <= w * c <= 2700) by (nonlinear_arith)
            requires
                -54 <= w <= 54,
                0 <= c <= 50,
        ;
    }
}

/// `a / b`, rounded towards zero.
pub fn div_toward_zero(a: i32, b: i32) -> (result: i32)
    requires
        b > 0,
        a > i32::MIN,
    ensures
        result == toward_zero(a as int, b as int),
{
    if a >= 0 {
        a / b
    } else {
        -((-a) / b)
    }
}

/// The evaluation nearest to `v`.
pub fn clamp_eval(v: i32) -> (result: Eval)
    ensures
        result == to_eval(v as int),
        is_eval(result as int),
{
    if v < MIN_EVAL as i32 {
        MIN_EVAL
    } else if v > MAX_EVAL as i32 {
        MAX_EVAL
    } else {
        v as Eval
    }
}

/// `score` halved `k` times over, rounded down each time.
pub fn halve(score: i32, k: Count) -> (result: i32)
    requires
        -10_000_000 <= score <= 10_000_000,
    ensures
        result == halved(score as int, k as int),
        -10_000_000 <= result <= 10_000_000,
{
    let mut value = score;
    let mut i: Count = 0;
    while i < k
        invariant
            0 <= i,
            i <= k || k < 0,
            -10_000_000 <= value <= 10_000_000,
            halved(score as int, k as int) == halved(value as int, k - i),
        decreases k - i,
    {
        value = if value >= 0 {
            value / 2
        } else {
            -((-value + 1) / 2)
        };
        i += 1;
    }
    value
}

/// The weight of index `i` in the weighted sum of the given kind.
pub fn weight_of(kind: u8, i: usize) -> (result: i32)
    requires
        kind <= 6,
        i < 10,
    ensures
        result == spec_weight(kind as int, i as int),
        -54 <= result <= 54,
{
    if kind == BALANCE {
        match i {
            0 => -54,
            1 => -52,
            2 => -48,
            3 => -42,
            4 => -10,
            5 => 10,
            6 => 42,
            7 => 48,
            8 => 52,
            _ => 54,
        }
    } else if kind == CENTER {
        match i {
            0 | 9 => -16,
            1 | 8 => -8,
            2 | 7 => 6,
            3 | 6 => 8,
            _ => 10,
        }
    } else if kind == ROW {
        i as i32
    } else if kind == COLUMN {
        match i {
            0 | 9 => 0,
            1 | 8 => 1,
            2 | 7 => 3,
            3 | 6 => 7,
            _ => 15,
        }
    } else if kind == ROW_FULL {
        match i {
            0 => 8,
            1 | 9 => 7,
            2 | 8 => 5,
            3 | 7 => 1,
            4 | 6 => -7,
            _ => -23,
        }
    } else if kind == ROW_EMPTY {
        match i {
            0 => -15,
            1 => -23,
            2 => -7,
            3 => 1,
            4 => 5,
            _ => i as i32 + 2,
        }
    } else {
        if i <= 4 {
            i as i32 - 6
        } else {
            i as i32 - 3
        }
    }
}

/// The weighted sum of `counts`.
pub fn weigh(kind: u8, counts: &[Count; 10]) -> (result: i32)
    requires
        kind <= 6,
        forall|i: int| 0 <= i < 10 ==> 0 <= #[trigger] counts@[i] <= 50,
    ensures
        result == dot(kind as int, counts@, 10),
        -27000 <= result <= 27000,
{
    let mut sum: i32 = 0;
    let mut i: usize = 0;
    while i < 10
        invariant
            i <= 10,
            kind <= 6,
            forall|k: int| 0 <= k < 10 ==> 0 <= #[trigger] counts@[k] <= 50,
            sum == dot(kind as int, counts@, i as int),
            -2700 * i <= sum <= 2700 * i,
        decreases 10 - i,
    {
        let w = weight_of(kind, i);
        let c = counts[i] as i32;
        proof {
            lemma_dot_bound(kind as int, counts@, i + 1);
            assert(-2700 <= w * c <= 2700) by (nonlinear_arith)
                requires
                    -54 <= w <= 54,
                    0 <= c <= 50,
            ;
        }
        sum = sum + w * c;
        i += 1;
    }
    sum
}

} // verus!
