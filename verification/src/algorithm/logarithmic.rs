//! The logarithmic scope: a budget of nodes that each level divides by the
//! number of its moves, so that the depth follows the branching.

use super::judge::Eval;
use super::minimax::gap_free;
use super::scope::{Depth, Scope};
use vstd::prelude::*;

verus! {

/// The base of the budget: a depth of `d` is worth `5^d` nodes.
pub const UBASE: u64 = 5;

/// The greatest depth whose budget a scope can hold.
pub const MAX_POWER: Depth = 27;

/// `5^k`.
pub open spec fn pow5(k: nat) -> nat
    decreases k,
{
    if k == 0 {
        1
    } else {
        5 * pow5((k - 1) as nat)
    }
}

/// How many of the powers `5^0 .. 5^(k-1)` are less than `nodes`.
pub open spec fn powers_below(nodes: nat, k: nat) -> nat
    decreases k,
{
    if k == 0 {
        0
    } else {
        powers_below(nodes, (k - 1) as nat) + if pow5((k - 1) as nat) < nodes {
            1nat
        } else {
            0nat
        }
    }
}

/// The depth that a budget of `nodes` stands for: the exponent where the
/// budget is one of the powers `5^0 .. 5^27`, else one more than the number
/// of these powers below it.
pub open spec fn spec_depth_of(nodes: nat) -> nat {
    if exists|k: nat| k <= 27 && #[trigger] pow5(k) == nodes {
        choose|k: nat| k <= 27 && #[trigger] pow5(k) == nodes
    } else {
        powers_below(nodes, 28) + 1
    }
}

/// The powers of five grow.
pub proof fn lemma_pow5_grows(a: nat, b: nat)
    requires
        a < b,
    ensures
        pow5(a) < pow5(b),
        pow5(a) >= 1,
    decreases b,
{
    if a > 0 {
        lemma_pow5_grows((a - 1) as nat, (b - 1) as nat);
    } else if b > 1 {
        lemma_pow5_grows(0, (b - 1) as nat);
    }
}

/// The powers of five up to the greatest that a scope holds.
pub proof fn lemma_pow5_bound(k: nat)
    requires
        k <= 27,
    ensures
        pow5(k) <= 7_450_580_596_923_828_125,
        pow5(27) == 7_450_580_596_923_828_125,
{
    reveal_with_fuel(pow5, 28);
    if k < 27 {
        lemma_pow5_grows(k, 27);
    }
}

/// A scope that holds a budget of nodes.
#[derive(Clone, Copy, Debug, PartialEq, Eq, Structural)]
pub struct LogarithmicScope {
    nodes: u64,
}

impl LogarithmicScope {
    /// The budget of nodes.
    pub closed spec fn budget(&self) -> u64 {
        self.nodes
    }

    /// The scope with the given budget.
    pub closed spec fn of(nodes: u64) -> LogarithmicScope {
        LogarithmicScope { nodes }
    }
}

impl Scope for LogarithmicScope {
    closed spec fn spec_from_depth(depth: Depth) -> LogarithmicScope {
        LogarithmicScope {
            nodes: pow5(
                if depth < 27 {
                    depth as nat
                } else {
                    27nat
                },
            ) as u64,
        }
    }

    closed spec fn spec_next(&self, len: usize, quiet: bool, gap: Eval) -> Option<LogarithmicScope> {
        if len == 0 || self.nodes / (len as u64) == 0 {
            None
        } else {
            Some(LogarithmicScope { nodes: self.nodes / (len as u64) })
        }
    }

    closed spec fn spec_depth(&self) -> Depth {
        spec_depth_of(self.nodes as nat) as Depth
    }

    fn from_depth(depth: Depth) -> (result: LogarithmicScope) {
        let limit: Depth = if depth < MAX_POWER {
            depth
        } else {
            MAX_POWER
        };
        let mut nodes: u64 = 1;
        let mut k: Depth = 0;
        while k < limit
            invariant
                k <= limit <= 27,
                nodes == pow5(k as nat),
            decreases limit - k,
        {
            proof {
                lemma_pow5_bound((k + 1) as nat);
            }
            nodes = nodes * UBASE;
            k += 1;
        }
        LogarithmicScope { nodes }
    }

    fn next(&self, len: usize, quiet: bool, gap: Eval) -> (result: Option<LogarithmicScope>) {
        if len == 0 {
            return None;
        }
        let nodes = self.nodes / (len as u64);
        if nodes == 0 {
            None
        } else {
            Some(LogarithmicScope { nodes })
        }
    }

    fn depth(&self) -> (result: Depth) {
        let mut power: u64 = 1;
        let mut k: Depth = 0;
        while k < 28
            invariant
                k <= 28,
                k < 28 ==> power == pow5(k as nat),
                powers_below(self.nodes as nat, k as nat) == k,
                forall|j: nat| j < k ==> #[trigger] pow5(j) < self.nodes,
            decreases 28 - k,
        {
            if power == self.nodes {
                proof {
                    let found = choose|j: nat| j <= 27 && #[trigger] pow5(j) == self.nodes as nat;
                    if found < k {
                        assert(pow5(found) < self.nodes);
                    } else if found > k {
                        lemma_pow5_grows(k as nat, found);
                    }
                }
                return k;
            }
            if power > self.nodes {
                proof {
                    assert forall|j: nat| j <= 27 implies #[trigger] pow5(j) != self.nodes as nat by {
                        if j > k {
                            lemma_pow5_grows(k as nat, j);
                        }
                    }
                    Self::lemma_powers_stop(self.nodes as nat, k as nat, 28);
                }
                return k + 1;
            }
            proof {
                if k < 27 {
                    lemma_pow5_bound((k + 1) as nat);
                }
            }
            if k < 27 {
                power = power * UBASE;
            }
            k += 1;
        }
        proof {
            assert forall|j: nat| j <= 27 implies #[trigger] pow5(j) != self.nodes as nat by {}
        }
        29
    }
}

impl LogarithmicScope {
    /// From the first power that is not below `nodes` on, none is.
    proof fn lemma_powers_stop(nodes: nat, k: nat, m: nat)
        requires
            k <= m,
            pow5(k) >= nodes,
        ensures
            powers_below(nodes, m) == powers_below(nodes, k),
        decreases m,
    {
        if m > k {
            if m - 1 > k {
                lemma_pow5_grows(k, (m - 1) as nat);
            }
            Self::lemma_powers_stop(nodes, k, (m - 1) as nat);
        }
    }
}

/// What the logarithmic scope does: a scope is its budget, and the scope
/// with a given budget has that budget; a depth of `d` is a budget of `5^d`
/// nodes, at most `5^27`; one level down the budget is divided by the number
/// of moves, and the search stops where nothing is left, or where there is
/// no move. Neither quietness nor the gap matters.
pub proof fn lemma_logarithmic_scope(
    scope: LogarithmicScope,
    depth: Depth,
    len: usize,
    quiet: bool,
    gap: Eval,
)
    ensures
        LogarithmicScope::spec_from_depth(depth).budget() == pow5(
            if depth < 27 {
                depth as nat
            } else {
                27nat
            },
        ),
        forall|nodes: u64| (#[trigger] LogarithmicScope::of(nodes)).budget() == nodes,
        scope == LogarithmicScope::of(scope.budget()),
        scope.spec_depth() == spec_depth_of(scope.budget() as nat),
        len == 0 ==> scope.spec_next(len, quiet, gap) is None,
        len > 0 && scope.budget() / (len as u64) == 0 ==> scope.spec_next(len, quiet, gap) is None,
        len > 0 && scope.budget() / (len as u64) != 0 ==> scope.spec_next(len, quiet, gap) == Some(
            LogarithmicScope::of(scope.budget() / (len as u64)),
        ),
{
    lemma_pow5_bound(
        if depth < 27 {
            depth as nat
        } else {
            27nat
        },
    );
    assert(spec_depth_of(scope.budget() as nat) <= 29) by {
        LogarithmicScope::lemma_depth_bound(scope.budget() as nat);
    }
}

/// The logarithmic scope does not look at the gap.
pub proof fn lemma_logarithmic_scope_gap_free()
    ensures
        forall|scope: LogarithmicScope, len: usize, quiet: bool, g1: Eval, g2: Eval| #[trigger]
            gap_free(scope, len, quiet, g1, g2),
{
}

impl LogarithmicScope {
    proof fn lemma_depth_bound(nodes: nat)
        ensures
            spec_depth_of(nodes) <= 29,
    {
        Self::lemma_below_bound(nodes, 28);
    }

    proof fn lemma_below_bound(nodes: nat, k: nat)
        ensures
            powers_below(nodes, k) <= k,
        decreases k,
    {
        if k > 0 {
            Self::lemma_below_bound(nodes, (k - 1) as nat);
        }
    }
}

} // verus!
