use vstd::prelude::*;

use crate::tic_utils::TicState;
use crate::ttt_game_state::{loc_key, spec_is_legal, spec_make_move, BoardLoc, TTTGameState};
use vstd::arithmetic::div_mod::{lemma_div_is_ordered, lemma_div_multiples_vanish, lemma_fundamental_div_mod};
use vstd::arithmetic::power2::{
    lemma2_to64, lemma2_to64_rest, lemma_pow2_adds, lemma_pow2_strictly_increases, pow2,
};

verus! {

/// Fixed-point scale: UCT terms are integers in units of `1 / SCALE`.
pub const SCALE: u64 = 0x100000000;

/// The natural logarithm of 2 in `SCALE` units (rounded).
pub const LN2_FP: u64 = 2977044472;

/// Cap on the visit count of any node, so that all fixed-point arithmetic
/// stays far from overflow.  One search performs one simulation per root
/// visit, so budgets up to this bound are allowed.
pub const MAX_VISITS: u64 = 0x1000000000000000;

/// The UCT key given to a not-yet-visited child: larger than every key a
/// visited child can have, so unvisited children are explored first (the
/// role the epsilon term plays in the classical formula).
pub const UNVISITED_KEY: u64 = 0xffffffffffffffff;

/// Floor of the base-2 logarithm (0 for inputs 0 and 1).
pub open spec fn spec_log2(n: nat) -> nat
    decreases n,
{
    if n < 2 {
        0
    } else {
        1 + spec_log2(n / 2)
    }
}

/// The natural logarithm in `SCALE` units, approximated from the floor of
/// the base-2 logarithm: `log2(n) * ln(2)`.
pub open spec fn spec_ln_fp(n: nat) -> int {
    spec_log2(n) * LN2_FP
}

/// The integer square root.
pub open spec fn spec_isqrt(x: nat) -> nat
    decreases x,
{
    if x == 0 {
        0
    } else {
        let r = spec_isqrt((x - 1) as nat);
        if (r + 1) * (r + 1) <= x {
            (r + 1) as nat
        } else {
            r
        }
    }
}

pub proof fn lemma_isqrt_bounds(x: nat)
    ensures
        spec_isqrt(x) * spec_isqrt(x) <= x,
        x < (spec_isqrt(x) + 1) * (spec_isqrt(x) + 1),
    decreases x,
{
    if x == 0 {
        assert(spec_isqrt(x) == 0);
        assert(x < (spec_isqrt(x) + 1) * (spec_isqrt(x) + 1)) by (nonlinear_arith)
            requires
                spec_isqrt(x) == 0,
                x == 0,
        ;
    } else {
        lemma_isqrt_bounds((x - 1) as nat);
        let r = spec_isqrt((x - 1) as nat);
        if (r + 1) * (r + 1) <= x {
            assert(spec_isqrt(x) == r + 1);
            assert(spec_isqrt(x) * spec_isqrt(x) <= x) by (nonlinear_arith)
                requires
                    spec_isqrt(x) == r + 1,
                    (r + 1) * (r + 1) <= x,
            ;
            assert(x < (spec_isqrt(x) + 1) * (spec_isqrt(x) + 1)) by (nonlinear_arith)
                requires
                    spec_isqrt(x) == r + 1,
                    (x - 1) < (r + 1) * (r + 1),
                    r >= 0,
            ;
        } else {
            assert(spec_isqrt(x) == r);
            assert(spec_isqrt(x) * spec_isqrt(x) <= x) by (nonlinear_arith)
                requires
                    spec_isqrt(x) == r,
                    r * r <= x - 1,
            ;
            assert(x < (spec_isqrt(x) + 1) * (spec_isqrt(x) + 1)) by (nonlinear_arith)
                requires
                    spec_isqrt(x) == r,
                    !((r + 1) * (r + 1) <= x),
            ;
        }
    }
}

pub proof fn lemma_isqrt_unique(x: nat, r: nat)
    requires
        r * r <= x,
        x < (r + 1) * (r + 1),
    ensures
        r == spec_isqrt(x),
{
    lemma_isqrt_bounds(x);
    let s = spec_isqrt(x);
    if r < s {
        assert(false) by (nonlinear_arith)
            requires
                r < s,
                s * s <= x,
                x < (r + 1) * (r + 1),
        ;
    }
    if s < r {
        assert(false) by (nonlinear_arith)
            requires
                s < r,
                r * r <= x,
                x < (s + 1) * (s + 1),
        ;
    }
}

/// The exploitation term: the average outcome from this child, shifted
/// from the range [-1, 1] to [0, 2] so the arithmetic stays unsigned, in
/// `SCALE` units.
pub open spec fn spec_exploit_fp(visits: u64, score: i64) -> int {
    ((score + visits) * SCALE) / (visits as int)
}

/// The exploration term `sqrt(2 * ln(parent visits) / visits)` in `SCALE`
/// units.
pub open spec fn spec_explore_fp(parent_visits: u64, visits: u64) -> int {
    spec_isqrt(((2 * spec_ln_fp(parent_visits as nat) * SCALE) / (visits as int)) as nat) as int
}

/// The score of a resolved game state from the viewpoint of the player to
/// move in it: 0 on a tie, -1 when that player is the recorded winner,
/// 1 when the opponent is.
pub open spec fn spec_terminal_score(s: TTTGameState) -> int {
    if s.board_state == TicState::T {
        0
    } else if s.board_state == s.current_player {
        -1
    } else {
        1
    }
}

/// The UCT selection key of a child: exploitation plus exploration for a
/// visited child, and a key above every visited child's for an unvisited
/// one.
pub open spec fn spec_uct_fp(parent_visits: u64, visits: u64, score: i64) -> int {
    if visits == 0 {
        UNVISITED_KEY as int
    } else {
        spec_exploit_fp(visits, score) + spec_explore_fp(parent_visits, visits)
    }
}

/// Siblings with equal, positive visit counts have equal exploration
/// terms, so UCT ranks them by exploitation alone: the child with the
/// higher accumulated score never has the smaller key.  Hence, once visit
/// counts equalize, selection goes to the child with the highest average
/// score (up to the fixed-point granularity of `1 / SCALE`).
pub proof fn lemma_uct_prefers_higher_score(parent_visits: u64, visits: u64, s1: i64, s2: i64)
    requires
        visits > 0,
        -(visits as int) <= s1 as int,
        s1 <= s2,
        s2 as int <= visits as int,
    ensures
        spec_uct_fp(parent_visits, visits, s1) <= spec_uct_fp(parent_visits, visits, s2),
{
    lemma_div_is_ordered((s1 + visits) * SCALE, (s2 + visits) * SCALE, visits as int);
}

/// The strict form: with equal, positive visit counts no greater than
/// `SCALE`, a strictly higher accumulated score gives a strictly greater
/// UCT key, so selection never prefers a sibling with a strictly lower
/// average score at the same visit count.  (Above `SCALE` visits, two
/// averages closer than the fixed-point granularity can share a key.)
pub proof fn lemma_uct_strictly_prefers_higher_score(
    parent_visits: u64,
    visits: u64,
    s1: i64,
    s2: i64,
)
    requires
        0 < visits <= SCALE,
        -(visits as int) <= s1 as int,
        (s1 as int) < s2 as int,
        s2 as int <= visits as int,
    ensures
        spec_uct_fp(parent_visits, visits, s1) < spec_uct_fp(parent_visits, visits, s2),
{
    let v = visits as int;
    let a = (s1 + visits) * SCALE;
    let b = (s2 + visits) * SCALE;
    lemma_fundamental_div_mod(a, v);
    assert(v * (a / v + 1) <= b) by (nonlinear_arith)
        requires
            a == v * (a / v) + a % v,
            a % v < v,
            a + SCALE <= b,
            v <= SCALE,
            v > 0,
    ;
    lemma_div_is_ordered(v * (a / v + 1), b, v);
    lemma_div_multiples_vanish(a / v + 1, v);
}

fn log2_floor(n: u64) -> (r: u64)
    ensures
        r == spec_log2(n as nat),
        r <= 63,
{
    proof {
        lemma2_to64();
        lemma2_to64_rest();
    }
    let mut m = n;
    let mut l: u64 = 0;
    while m >= 2
        invariant
            spec_log2(n as nat) == l + spec_log2(m as nat),
            pow2(l as nat) * m <= n,
            l <= 63,
        decreases m,
    {
        proof {
            lemma2_to64();
            lemma_pow2_adds(1, l as nat);
            lemma_fundamental_div_mod(m as int, 2);
            assert(pow2((l + 1) as nat) * (m / 2) <= pow2(l as nat) * m) by (nonlinear_arith)
                requires
                    pow2((l + 1) as nat) == 2 * pow2(l as nat),
                    2 * (m / 2) <= m,
                    pow2(l as nat) >= 0,
                    m / 2 >= 0,
            ;
            // If l + 1 were 64 or more, pow2(l + 1) alone would already
            // exceed what fits under n.
            assert(pow2((l + 1) as nat) <= pow2((l + 1) as nat) * (m / 2)) by (nonlinear_arith)
                requires
                    m / 2 >= 1,
                    pow2((l + 1) as nat) >= 0,
            ;
            if l + 1 > 64 {
                lemma_pow2_strictly_increases(64, (l + 1) as nat);
            }
        }
        m = m / 2;
        l = l + 1;
    }
    l
}

fn isqrt_wide(x: u128) -> (r: u64)
    requires
        x < 0x100000000000000000000000000,
    ensures
        r == spec_isqrt(x as nat),
{
    let mut lo: u128 = 0;
    let mut hi: u128 = 0x10000000000000;
    assert(hi * hi > x) by (nonlinear_arith)
        requires
            hi == 0x10000000000000,
            x < 0x100000000000000000000000000,
    ;
    while hi - lo > 1
        invariant
            lo < hi,
            hi <= 0x10000000000000,
            lo * lo <= x,
            x < hi * hi,
        decreases hi - lo,
    {
        let mid = lo + (hi - lo) / 2;
        assert(mid * mid < 0x100000000000000000000000000000000) by (nonlinear_arith)
            requires
                mid < 0x10000000000000,
        ;
        if mid * mid <= x {
            lo = mid;
        } else {
            hi = mid;
        }
    }
    proof {
        lemma_isqrt_unique(x as nat, lo as nat);
    }
    lo as u64
}

/// The exploitation term of a visited child, with its overflow-safety
/// bound.
fn exploit_fp(visits: u64, score: i64) -> (r: u64)
    requires
        0 < visits <= MAX_VISITS,
        -(visits as int) <= score as int <= visits as int,
    ensures
        r == spec_exploit_fp(visits, score),
        r <= 2 * SCALE,
{
    let shifted: u128 = (score + visits as i64) as u128;
    assert(shifted * (SCALE as u128) <= 0x2000000000000000 * 0x100000000) by (nonlinear_arith)
        requires
            shifted <= 0x2000000000000000,
    ;
    let num: u128 = shifted * (SCALE as u128);
    let q: u128 = num / (visits as u128);
    proof {
        lemma_fundamental_div_mod(num as int, visits as int);
        assert(q <= 2 * SCALE) by (nonlinear_arith)
            requires
                num == visits * q + (num as int % visits as int),
                0 <= num as int % visits as int,
                num == shifted * (SCALE as int),
                shifted <= 2 * (visits as int),
                visits >= 1,
                q >= 0,
        ;
    }
    q as u64
}

/// The UCT key of a child, computed in fixed point.
fn uct_key(parent_visits: u64, visits: u64, score: i64) -> (k: u64)
    requires
        visits <= MAX_VISITS,
        -(visits as int) <= score as int <= visits as int,
    ensures
        k == spec_uct_fp(parent_visits, visits, score),
{
    if visits == 0 {
        return UNVISITED_KEY;
    }
    let exploit = exploit_fp(visits, score);
    let l = log2_floor(parent_visits);
    let ln_fp: u128 = (l as u128) * (LN2_FP as u128);
    assert(ln_fp <= 63 * (LN2_FP as u128)) by (nonlinear_arith)
        requires
            ln_fp == l * (LN2_FP as u128),
            l <= 63,
    ;
    let two_ln: u128 = 2 * ln_fp;
    assert(two_ln * (SCALE as u128) < 0x1000000000000000000) by (nonlinear_arith)
        requires
            two_ln <= 126 * (LN2_FP as u128),
    ;
    let num: u128 = two_ln * (SCALE as u128);
    let rad: u128 = num / (visits as u128);
    proof {
        lemma_fundamental_div_mod(num as int, visits as int);
        assert(rad <= num) by (nonlinear_arith)
            requires
                num == visits * rad + (num as int % visits as int),
                0 <= num as int % visits as int,
                visits >= 1,
                rad >= 0,
        ;
    }
    let explore = isqrt_wide(rad);
    proof {
        lemma_isqrt_bounds(rad as nat);
        assert(explore < 0x1000000000) by (nonlinear_arith)
            requires
                explore * explore <= rad,
                rad < 0x1000000000000000000,
                explore >= 0,
        ;
    }
    exploit + explore
}

/// Exact comparison `num1 / den1 > num2 / den2` of two average outcomes,
/// by cross-multiplication in wide integers.
fn avg_greater(num1: i64, den1: u64, num2: i64, den2: u64) -> (r: bool)
    requires
        0 < den1 <= MAX_VISITS,
        0 < den2 <= MAX_VISITS,
        -(den1 as int) <= num1 as int <= den1 as int,
        -(den2 as int) <= num2 as int <= den2 as int,
    ensures
        r == ((num1 as int) * (den2 as int) > (num2 as int) * (den1 as int)),
{
    proof {
        assert(-0x1000000000000000 * 0x1000000000000000 <= (num1 as int) * (den2 as int)
            <= 0x1000000000000000 * 0x1000000000000000) by (nonlinear_arith)
            requires
                -0x1000000000000000 <= num1 as int <= 0x1000000000000000,
                0 <= den2 as int <= 0x1000000000000000,
        ;
        assert(-0x1000000000000000 * 0x1000000000000000 <= (num2 as int) * (den1 as int)
            <= 0x1000000000000000 * 0x1000000000000000) by (nonlinear_arith)
            requires
                -0x1000000000000000 <= num2 as int <= 0x1000000000000000,
                0 <= den1 as int <= 0x1000000000000000,
        ;
    }
    (num1 as i128) * (den2 as i128) > (num2 as i128) * (den1 as i128)
}

/// Transitivity across a strict step for exactly-compared averages:
/// `n1/d1 <= n2/d2` and `n2/d2 < n3/d3` give `n1/d1 < n3/d3`.
proof fn lemma_avg_le_lt_trans(n1: int, d1: int, n2: int, d2: int, n3: int, d3: int)
    requires
        d1 > 0,
        d2 > 0,
        d3 > 0,
        n1 * d2 <= n2 * d1,
        n2 * d3 < n3 * d2,
    ensures
        n1 * d3 < n3 * d1,
{
    assert(n1 * d3 < n3 * d1) by (nonlinear_arith)
        requires
            d1 > 0,
            d2 > 0,
            d3 > 0,
            n1 * d2 <= n2 * d1,
            n2 * d3 < n3 * d2,
    ;
}

/// A node of the search tree: the game state it stands for, arena indices
/// for its parent and children, the move that led here from the parent
/// (absent at the root), and its visit and score statistics.  The score is
/// the signed sum of simulation outcomes, each in {-1, 0, 1}, so it is
/// bounded by the visit count.
struct Node {
    state: TTTGameState,
    parent: Option<usize>,
    children: Vec<usize>,
    move_made: Option<BoardLoc>,
    visits: u64,
    score: i64,
}

/// The Monte Carlo tree search engine: a growable arena of nodes addressed
/// by index, with the root at index 0.  One arena serves one move
/// decision and is then discarded.
pub struct MCTS {
    nodes: Vec<Node>,
}

impl MCTS {
    /// The game state the search starts from.
    pub closed spec fn spec_root_state(self) -> TTTGameState {
        self.nodes[0].state
    }

    /// How many children the root currently has.
    pub closed spec fn spec_root_children(self) -> int {
        self.nodes[0].children.len() as int
    }

    /// How many times the root has been visited; equals the number of
    /// completed simulations on a fresh arena.
    pub closed spec fn spec_root_visits(self) -> u64 {
        self.nodes[0].visits
    }

    /// The move stored on the root's `k`-th child.
    pub closed spec fn spec_root_child_move(self, k: int) -> Option<BoardLoc> {
        self.nodes[self.nodes[0].children[k] as int].move_made
    }

    /// The numerator of the exact average outcome of the root's `k`-th
    /// child (its accumulated score; zero for an unvisited child).
    spec fn spec_avg_num(self, k: int) -> int {
        let c = self.nodes[0].children[k] as int;
        if self.nodes[c].visits == 0 {
            0
        } else {
            self.nodes[c].score as int
        }
    }

    /// The denominator of that average (the visit count; one for an
    /// unvisited child, making its average exactly zero).
    spec fn spec_avg_den(self, k: int) -> int {
        let c = self.nodes[0].children[k] as int;
        if self.nodes[c].visits == 0 {
            1
        } else {
            self.nodes[c].visits as int
        }
    }

    /// The root's `k1`-th child has an average outcome (score over visits)
    /// at most that of the `k2`-th, compared exactly by
    /// cross-multiplication.
    pub closed spec fn spec_avg_le(self, k1: int, k2: int) -> bool {
        self.spec_avg_num(k1) * self.spec_avg_den(k2) <= self.spec_avg_num(k2)
            * self.spec_avg_den(k1)
    }

    /// Strictly smaller average outcome, compared exactly.
    pub closed spec fn spec_avg_lt(self, k1: int, k2: int) -> bool {
        self.spec_avg_num(k1) * self.spec_avg_den(k2) < self.spec_avg_num(k2)
            * self.spec_avg_den(k1)
    }

    /// The `k`-th child edge of node `i` is structurally sound: it points
    /// forward in the arena, and the child records a move that is legal in
    /// this node's state.
    spec fn child_ok(self, i: int, k: int) -> bool {
        let c = self.nodes[i].children[k] as int;
        &&& i < c < self.nodes.len()
        &&& (self.nodes[c].move_made matches Some(m) && spec_is_legal(self.nodes[i].state, m))
    }

    /// Per-node invariant: a well-formed game state, a backward parent
    /// link (absent exactly at the root), statistics bounded by the root's
    /// visit count, and sound child edges.
    spec fn node_ok(self, i: int) -> bool {
        &&& self.nodes[i].state.wf()
        &&& (i == 0 ==> self.nodes[i].parent is None)
        &&& (i > 0 ==> (self.nodes[i].parent matches Some(p) && p < i))
        &&& self.nodes[i].visits <= self.nodes[0].visits
        &&& -(self.nodes[i].visits as int) <= self.nodes[i].score as int <= self.nodes[i].visits
            as int
    }

    /// Arena invariant: at least the root, a capped root visit count, and
    /// every node and child edge sound.
    pub closed spec fn wf(self) -> bool {
        &&& self.nodes.len() >= 1
        &&& self.nodes[0].visits <= MAX_VISITS
        &&& forall|i: int| 0 <= i < self.nodes.len() ==> self.node_ok(i)
        &&& forall|i: int, k: int|
            0 <= i < self.nodes.len() && 0 <= k < self.nodes[i].children.len()
                ==> self.child_ok(i, k)
    }

    /// A fresh arena holding only the given root state.
    pub fn new(initial_state: TTTGameState) -> (r: Self)
        requires
            initial_state.wf(),
        ensures
            r.wf(),
            r.spec_root_state() == initial_state,
            r.spec_root_children() == 0,
            r.spec_root_visits() == 0,
    {
        let root_node = Node {
            state: initial_state,
            parent: None,
            children: Vec::new(),
            move_made: None,
            visits: 0,
            score: 0,
        };
        let mut nodes: Vec<Node> = Vec::new();
        nodes.push(root_node);
        MCTS { nodes }
    }

    /// The UCT key of the `k`-th child of node `i`, as selection sees it.
    spec fn spec_child_key(self, i: int, k: int) -> int {
        let c = self.nodes[i].children[k] as int;
        spec_uct_fp(self.nodes[i].visits, self.nodes[c].visits, self.nodes[c].score)
    }

    /// The position, among the first `n` children of node `i`, of the
    /// earliest child with the maximal UCT key.
    spec fn spec_best_child_pos(self, i: int, n: int) -> int
        decreases n,
    {
        if n <= 1 {
            0
        } else {
            let prev = self.spec_best_child_pos(i, n - 1);
            if self.spec_child_key(i, n - 1) > self.spec_child_key(i, prev) {
                n - 1
            } else {
                prev
            }
        }
    }

    /// The arena index of the child UCT selection descends into from `i`.
    spec fn spec_selected_child(self, i: int) -> int {
        self.nodes[i].children[self.spec_best_child_pos(
            i,
            self.nodes[i].children.len() as int,
        )] as int
    }

    /// The leaf that repeated UCT selection reaches from `from`: follow
    /// the selected child while children remain.  The fuel only bounds the
    /// recursion; child indices strictly increase in a well-formed arena,
    /// so the arena size is always fuel enough.
    spec fn spec_descent_leaf(self, from: int, fuel: nat) -> int
        decreases fuel,
    {
        if fuel == 0 || !(0 <= from < self.nodes.len()) || self.nodes[from].children.len() == 0 {
            from
        } else {
            self.spec_descent_leaf(self.spec_selected_child(from), (fuel - 1) as nat)
        }
    }

    /// The child of `node_index` with the best UCT key, earliest first on
    /// ties.
    fn best_uct(&self, node_index: usize) -> (r: usize)
        requires
            self.wf(),
            node_index < self.nodes.len(),
            self.nodes[node_index as int].children.len() > 0,
        ensures
            node_index < r < self.nodes.len(),
            r == self.spec_selected_child(node_index as int),
            exists|kr: int|
                #![auto]
                {
                    &&& 0 <= kr < self.nodes[node_index as int].children.len()
                    &&& self.nodes[node_index as int].children[kr] == r
                    &&& (forall|k: int|
                        0 <= k < self.nodes[node_index as int].children.len()
                            ==> self.spec_child_key(node_index as int, k) <= self.spec_child_key(
                            node_index as int,
                            kr,
                        ))
                    &&& (forall|k: int|
                        0 <= k < kr ==> self.spec_child_key(node_index as int, k)
                            < self.spec_child_key(node_index as int, kr))
                },
    {
        let parent_visits = self.nodes[node_index].visits;
        let first_child = self.nodes[node_index].children[0];
        assert(self.child_ok(node_index as int, 0));
        assert(self.node_ok(first_child as int));
        let mut best_child = first_child;
        let mut best_key = uct_key(
            parent_visits,
            self.nodes[first_child].visits,
            self.nodes[first_child].score,
        );
        let ghost mut best_k: int = 0;
        let mut k: usize = 1;
        while k < self.nodes[node_index].children.len()
            invariant
                self.wf(),
                node_index < self.nodes.len(),
                self.nodes[node_index as int].children.len() > 0,
                parent_visits == self.nodes[node_index as int].visits,
                1 <= k <= self.nodes[node_index as int].children.len(),
                0 <= best_k < k,
                best_k == self.spec_best_child_pos(node_index as int, k as int),
                self.nodes[node_index as int].children[best_k] == best_child,
                best_key == self.spec_child_key(node_index as int, best_k),
                forall|j: int|
                    0 <= j < k ==> self.spec_child_key(node_index as int, j)
                        <= self.spec_child_key(node_index as int, best_k),
                forall|j: int|
                    0 <= j < best_k ==> self.spec_child_key(node_index as int, j)
                        < self.spec_child_key(node_index as int, best_k),
            decreases self.nodes[node_index as int].children.len() - k,
        {
            let child = self.nodes[node_index].children[k];
            assert(self.child_ok(node_index as int, k as int));
            assert(self.node_ok(child as int));
            let key = uct_key(parent_visits, self.nodes[child].visits, self.nodes[child].score);
            assert(key == self.spec_child_key(node_index as int, k as int));
            if key > best_key {
                best_child = child;
                best_key = key;
                proof {
                    best_k = k as int;
                }
            }
            k = k + 1;
        }
        assert(self.child_ok(node_index as int, best_k));
        best_child
    }

    /// Creates one child of `node_index` for each legal move of its state,
    /// in enumeration order: the appended children carry exactly the legal
    /// moves, each child's state is that move applied, and their statistics
    /// start at zero.  An open (unresolved) state always yields at least
    /// one child.
    fn expand(&mut self, node_index: usize)
        requires
            old(self).wf(),
            node_index < old(self).nodes.len(),
            old(self).nodes[node_index as int].children.len() == 0,
        ensures
            final(self).wf(),
            final(self).nodes.len() >= old(self).nodes.len(),
            final(self).nodes.len() == old(self).nodes.len() + final(self).nodes[node_index as int].children.len(),
            forall|t: int|
                #![trigger final(self).nodes[node_index as int].children[t]]
                0 <= t < final(self).nodes[node_index as int].children.len() ==> ({
                    let c = final(self).nodes[node_index as int].children[t] as int;
                    &&& c == old(self).nodes.len() + t
                    &&& final(self).nodes[c].parent == Some(node_index)
                    &&& final(self).nodes[c].children.len() == 0
                    &&& final(self).nodes[c].visits == 0
                    &&& final(self).nodes[c].score == 0
                    &&& (final(self).nodes[c].move_made matches Some(mv)
                        && spec_is_legal(old(self).nodes[node_index as int].state, mv)
                        && final(self).nodes[c].state == spec_make_move(
                        old(self).nodes[node_index as int].state,
                        mv,
                    ))
                }),
            forall|mv: BoardLoc|
                spec_is_legal(old(self).nodes[node_index as int].state, mv)
                    ==> exists|t: int|
                    #![auto]
                    0 <= t < final(self).nodes[node_index as int].children.len() && final(self).nodes[final(self).nodes[node_index as int].children[t] as int].move_made
                        == Some(mv),
            forall|t1: int, t2: int|
                #![trigger final(self).nodes[node_index as int].children[t1], final(self).nodes[node_index as int].children[t2]]
                0 <= t1 < t2 < final(self).nodes[node_index as int].children.len() ==> ({
                    let c1 = final(self).nodes[node_index as int].children[t1] as int;
                    let c2 = final(self).nodes[node_index as int].children[t2] as int;
                    (final(self).nodes[c1].move_made matches Some(m1) && final(self).nodes[c2].move_made matches Some(m2) && loc_key(m1)
                        < loc_key(m2))
                }),
            forall|j: int|
                0 <= j < old(self).nodes.len() && j != node_index ==> final(self).nodes[j] == old(self).nodes[j],
            final(self).nodes[node_index as int].state == old(self).nodes[node_index as int].state,
            final(self).nodes[node_index as int].parent == old(self).nodes[node_index as int].parent,
            final(self).nodes[node_index as int].move_made == old(self).nodes[node_index as int].move_made,
            final(self).nodes[node_index as int].visits == old(self).nodes[node_index as int].visits,
            final(self).nodes[node_index as int].score == old(self).nodes[node_index as int].score,
            old(self).nodes[node_index as int].state.board_state == TicState::N ==> final(self).nodes[node_index as int].children.len() > 0,
            final(self).spec_root_state() == old(self).spec_root_state(),
            final(self).spec_root_visits() == old(self).spec_root_visits(),
    {
        let state = self.nodes[node_index].state;
        assert(self.node_ok(node_index as int));
        let legal_moves = state.get_legal_moves();
        let mut new_children: Vec<usize> = Vec::new();
        let mut m: usize = 0;
        while m < legal_moves.len()
            invariant
                m <= legal_moves.len(),
                node_index < old(self).nodes.len(),
                state == old(self).nodes[node_index as int].state,
                state.wf(),
                forall|t: int|
                    0 <= t < legal_moves.len() ==> spec_is_legal(state, #[trigger] legal_moves[t]),
                self.nodes.len() == old(self).nodes.len() + m,
                forall|j: int| 0 <= j < old(self).nodes.len() ==> self.nodes[j] == old(self).nodes[j],
                new_children.len() == m,
                forall|t: int|
                    0 <= t < m ==> #[trigger] new_children[t] == old(self).nodes.len() + t,
                forall|j: int|
                    old(self).nodes.len() <= j < self.nodes.len() ==> ({
                        &&& (#[trigger] self.nodes[j]).parent == Some(node_index)
                        &&& self.nodes[j].children.len() == 0
                        &&& self.nodes[j].visits == 0
                        &&& self.nodes[j].score == 0
                        &&& self.nodes[j].move_made == Some(
                            legal_moves[j - old(self).nodes.len()],
                        )
                        &&& spec_is_legal(state, legal_moves[j - old(self).nodes.len()])
                        &&& self.nodes[j].state == spec_make_move(
                            state,
                            legal_moves[j - old(self).nodes.len()],
                        )
                        &&& self.nodes[j].state.wf()
                    }),
            decreases legal_moves.len() - m,
        {
            let mv = legal_moves[m];
            let new_state = state.make_move(mv);
            let child_index = self.nodes.len();
            let child_node = Node {
                state: new_state,
                parent: Some(node_index),
                children: Vec::new(),
                move_made: Some(mv),
                visits: 0,
                score: 0,
            };
            self.nodes.push(child_node);
            new_children.push(child_index);
            m = m + 1;
        }
        proof {
            if state.board_state == TicState::N {
                crate::ttt_game_state::lemma_open_state_has_legal_move(state);
                let loc = choose|loc: BoardLoc| #[trigger] spec_is_legal(state, loc);
                assert(legal_moves@.contains(loc));
            }
        }
        let node_ref = &mut self.nodes[node_index];
        node_ref.children = new_children;
        proof {
            assert forall|mv: BoardLoc|
                spec_is_legal(old(self).nodes[node_index as int].state, mv) implies exists|t: int|
                #![auto]
                0 <= t < self.nodes[node_index as int].children.len() && self.nodes[self.nodes[
                node_index as int].children[t] as int].move_made == Some(mv) by {
                assert(legal_moves@.contains(mv));
                let t = choose|t: int| 0 <= t < legal_moves@.len() && legal_moves@[t] == mv;
                assert(self.nodes[self.nodes[node_index as int].children[t] as int].move_made
                    == Some(mv));
            }
        }
        proof {
            let fs = *self;
            let os = *old(self);
            assert(fs.nodes[0].visits == os.nodes[0].visits);
            assert forall|i: int| 0 <= i < fs.nodes.len() implies fs.node_ok(i) by {
                if i < os.nodes.len() {
                    assert(os.node_ok(i));
                } else {
                    assert(fs.nodes[i].parent == Some(node_index));
                }
            }
            assert forall|i: int, k: int|
                0 <= i < fs.nodes.len() && 0 <= k < fs.nodes[i].children.len() implies fs.child_ok(
                i,
                k,
            ) by {
                if i < os.nodes.len() && i != node_index {
                    assert(os.child_ok(i, k));
                    assert(fs.nodes[i] == os.nodes[i]);
                    let c = os.nodes[i].children[k] as int;
                    if c != node_index {
                        assert(fs.nodes[c] == os.nodes[c]);
                    }
                } else if i == node_index {
                    let c = fs.nodes[i].children[k] as int;
                    assert(c == os.nodes.len() + k);
                } else {
                    // appended nodes have no children
                }
            }
        }
    }

    /// Descends from `node_index` by repeatedly taking the UCT-selected
    /// child until a childless node is reached; expands that leaf when its
    /// state is open, and returns the arena index the next rollout should
    /// start from: the leaf itself when it is terminal (arena unchanged) or
    /// yields no children, else one of its newly created children.  The
    /// returned node is always childless.
    fn traverse(&mut self, node_index: usize) -> (r: usize)
        requires
            old(self).wf(),
            node_index < old(self).nodes.len(),
        ensures
            final(self).wf(),
            r < final(self).nodes.len(),
            final(self).nodes[r as int].children.len() == 0,
            ({
                let leaf = old(self).spec_descent_leaf(
                    node_index as int,
                    old(self).nodes.len() as nat,
                );
                &&& (old(self).nodes[leaf].state.board_state != TicState::N ==> r == leaf
                    && *final(self) == *old(self))
                &&& (old(self).nodes[leaf].state.board_state == TicState::N ==> ({
                    &&& final(self).nodes.len() == old(self).nodes.len() + final(self).nodes[leaf].children.len()
                    &&& (final(self).nodes[leaf].children.len() == 0 ==> r == leaf)
                    &&& (final(self).nodes[leaf].children.len() > 0 ==> exists|k: int|
                        #![auto]
                        0 <= k < final(self).nodes[leaf].children.len() && final(self).nodes[leaf].children[k] == r)
                }))
            }),
            final(self).nodes.len() >= old(self).nodes.len(),
            final(self).spec_root_state() == old(self).spec_root_state(),
            final(self).spec_root_visits() == old(self).spec_root_visits(),
            final(self).spec_root_children() >= old(self).spec_root_children(),
            node_index == 0 && old(self).spec_root_children() == 0 && old(self).spec_root_state().board_state == TicState::N ==> final(self).spec_root_children()
                > 0,
            old(self).spec_root_state().board_state != TicState::N && node_index == 0 ==> final(self).spec_root_children() == old(self).spec_root_children(),
    {
        let mut current_node = node_index;
        let ghost mut steps: nat = 0;
        while self.nodes[current_node].children.len() != 0
            invariant
                *self == *old(self),
                self.wf(),
                node_index <= current_node,
                current_node < self.nodes.len(),
                node_index == 0 && old(self).spec_root_children() == 0 ==> current_node == 0,
                steps <= current_node - node_index,
                old(self).spec_descent_leaf(node_index as int, old(self).nodes.len() as nat)
                    == old(self).spec_descent_leaf(
                    current_node as int,
                    (old(self).nodes.len() - steps) as nat,
                ),
            decreases self.nodes.len() - current_node,
        {
            let next = self.best_uct(current_node);
            proof {
                steps = steps + 1;
            }
            current_node = next;
        }
        proof {
            assert(old(self).spec_descent_leaf(node_index as int, old(self).nodes.len() as nat)
                == current_node);
        }
        if !(self.nodes[current_node].state.board_state == TicState::N) {
            return current_node;
        }
        assert(self.node_ok(current_node as int));
        self.expand(current_node);
        if self.nodes[current_node].children.len() == 0 {
            current_node
        } else {
            let count = self.nodes[current_node].children.len();
            let idx = random_below(count);
            let chosen = self.nodes[current_node].children[idx];
            assert(self.child_ok(current_node as int, idx as int));
            chosen
        }
    }

    /// Plays uniformly random legal moves from the given node's state
    /// until the game resolves or no move remains, and scores the outcome
    /// from the perspective of the player to move at the start: -1 when
    /// that player wins, 1 when the opponent wins, 0 on a tie.  On an
    /// already-resolved start state no move is played and the score is
    /// exactly that state's terminal score.
    fn rollout(&self, node_index: usize) -> (result: i8)
        requires
            self.wf(),
            node_index < self.nodes.len(),
        ensures
            -1 <= result <= 1,
            self.nodes[node_index as int].state.board_state != TicState::N ==> result as int
                == spec_terminal_score(self.nodes[node_index as int].state),
    {
        assert(self.node_ok(node_index as int));
        let mut current_state = self.nodes[node_index].state;
        let current_player = current_state.current_player;
        // Every legal move fills an empty cell, so no playout can last
        // beyond the board's 81 cells; the counter only carries the
        // termination argument.
        let mut fuel: usize = 81;
        while fuel > 0
            invariant
                current_state.wf(),
                self.nodes[node_index as int].state.board_state != TicState::N ==> current_state
                    == self.nodes[node_index as int].state,
                current_player == self.nodes[node_index as int].state.current_player,
            decreases fuel,
        {
            if !(current_state.board_state == TicState::N) {
                break ;
            }
            let moves = current_state.get_legal_moves();
            if moves.len() == 0 {
                break ;
            }
            let idx = random_below(moves.len());
            current_state = current_state.make_move(moves[idx]);
            fuel = fuel - 1;
        }
        if current_state.board_state == TicState::T {
            0
        } else if current_state.board_state == current_player {
            -1
        } else {
            1
        }
    }

    /// Parent links alone are structurally sound: only the root lacks a
    /// parent, and every parent link points backward in the arena.
    spec fn parents_ok(self) -> bool {
        &&& self.nodes.len() >= 1
        &&& self.nodes[0].parent is None
        &&& forall|i: int|
            0 < i < self.nodes.len() ==> ((#[trigger] self.nodes[i]).parent matches Some(p) && p
                < i)
    }

    /// `j` lies on the parent chain that starts at `start`: `start` itself,
    /// its parent, its parent's parent, and so on.
    spec fn on_chain(self, start: int, j: int) -> bool
        decreases start,
    {
        if start == j {
            true
        } else {
            match self.nodes[start].parent {
                Some(p) => p < start && self.on_chain(p as int, j),
                None => false,
            }
        }
    }

    /// The sign with which an outcome recorded at `start` reaches chain
    /// node `j`: +1 at `start` itself, flipping at every step up, because
    /// each ancestor alternates the player to move.
    spec fn chain_sign(self, start: int, j: int) -> int
        decreases start,
    {
        if start == j {
            1
        } else {
            match self.nodes[start].parent {
                Some(p) => if p < start {
                    -self.chain_sign(p as int, j)
                } else {
                    1
                },
                None => 1,
            }
        }
    }

    proof fn lemma_chain_in_range(self, start: int, j: int)
        requires
            self.on_chain(start, j),
            0 <= start,
        ensures
            0 <= j <= start,
        decreases start,
    {
        if start != j {
            match self.nodes[start].parent {
                Some(p) => {
                    self.lemma_chain_in_range(p as int, j);
                },
                None => {},
            }
        }
    }

    proof fn lemma_chain_reaches_root(self, start: int)
        requires
            self.wf(),
            0 <= start < self.nodes.len(),
        ensures
            self.on_chain(start, 0),
        decreases start,
    {
        if start != 0 {
            assert(self.node_ok(start));
            match self.nodes[start].parent {
                Some(p) => {
                    self.lemma_chain_reaches_root(p as int);
                },
                None => {},
            }
        }
    }

    proof fn lemma_chain_sign_unit(self, start: int, j: int)
        ensures
            self.chain_sign(start, j) == 1 || self.chain_sign(start, j) == -1,
        decreases start,
    {
        if start != j {
            match self.nodes[start].parent {
                Some(p) => {
                    if p < start {
                        self.lemma_chain_sign_unit(p as int, j);
                    }
                },
                None => {},
            }
        }
    }

    /// Chains and signs depend on the parent links alone.
    proof fn lemma_chain_same(a: MCTS, b: MCTS, start: int, j: int)
        requires
            a.nodes.len() == b.nodes.len(),
            forall|i: int|
                0 <= i < a.nodes.len() ==> (#[trigger] a.nodes[i]).parent == b.nodes[i].parent,
            0 <= start < a.nodes.len(),
        ensures
            a.on_chain(start, j) == b.on_chain(start, j),
            a.chain_sign(start, j) == b.chain_sign(start, j),
        decreases start,
    {
        if start != j {
            match a.nodes[start].parent {
                Some(p) => {
                    if p < start {
                        Self::lemma_chain_same(a, b, p as int, j);
                    }
                },
                None => {},
            }
        }
    }

    /// The recursive chain walk: adds `result` at `node_index`, then the
    /// negated outcome at its parent, and so on up to the root.
    fn backprop_rec(&mut self, result: i8, node_index: usize)
        requires
            old(self).parents_ok(),
            node_index < old(self).nodes.len(),
            -1 <= result <= 1,
            forall|j: int|
                #[trigger] old(self).on_chain(node_index as int, j) && 0 <= j < old(self).nodes.len() ==> old(self).nodes[j].visits < 0xffffffffffffffff
                    && -0x7ffffffffffffffe <= old(self).nodes[j].score <= 0x7ffffffffffffffe,
        ensures
            final(self).nodes.len() == old(self).nodes.len(),
            forall|j: int|
                0 <= j < old(self).nodes.len() && !old(self).on_chain(node_index as int, j)
                    ==> final(self).nodes[j] == old(self).nodes[j],
            forall|j: int|
                #[trigger] old(self).on_chain(node_index as int, j) && 0 <= j < old(self).nodes.len() ==> ({
                    &&& final(self).nodes[j].state == old(self).nodes[j].state
                    &&& final(self).nodes[j].parent == old(self).nodes[j].parent
                    &&& final(self).nodes[j].children == old(self).nodes[j].children
                    &&& final(self).nodes[j].move_made == old(self).nodes[j].move_made
                    &&& final(self).nodes[j].visits == old(self).nodes[j].visits + 1
                    &&& final(self).nodes[j].score == old(self).nodes[j].score + result * old(self).chain_sign(node_index as int, j)
                }),
        decreases node_index,
    {
        proof {
            assert(old(self).on_chain(node_index as int, node_index as int));
        }
        let visits = self.nodes[node_index].visits;
        let score = self.nodes[node_index].score;
        let node_ref = &mut self.nodes[node_index];
        node_ref.score = score + (result as i64);
        node_ref.visits = visits + 1;
        let parent = self.nodes[node_index].parent;
        let ghost mid = *self;
        match parent {
            Some(p) => {
                proof {
                    assert(p < node_index);
                    assert(mid.parents_ok());
                    assert forall|j: int|
                        #[trigger] mid.on_chain(p as int, j) && 0 <= j
                            < mid.nodes.len() implies mid.nodes[j].visits < 0xffffffffffffffff
                        && -0x7ffffffffffffffe <= mid.nodes[j].score <= 0x7ffffffffffffffe by {
                        Self::lemma_chain_same(mid, *old(self), p as int, j);
                        old(self).lemma_chain_in_range(p as int, j);
                        assert(old(self).on_chain(node_index as int, j));
                    }
                }
                self.backprop_rec(-result, p);
                proof {
                    let os = *old(self);
                    let fs = *self;
                    assert forall|j: int|
                        0 <= j < os.nodes.len() && !os.on_chain(
                            node_index as int,
                            j,
                        ) implies fs.nodes[j] == os.nodes[j] by {
                        Self::lemma_chain_same(mid, os, p as int, j);
                    }
                    assert forall|j: int|
                        #[trigger] os.on_chain(node_index as int, j) && 0 <= j
                            < os.nodes.len() implies ({
                        &&& fs.nodes[j].state == os.nodes[j].state
                        &&& fs.nodes[j].parent == os.nodes[j].parent
                        &&& fs.nodes[j].children == os.nodes[j].children
                        &&& fs.nodes[j].move_made == os.nodes[j].move_made
                        &&& fs.nodes[j].visits == os.nodes[j].visits + 1
                        &&& fs.nodes[j].score == os.nodes[j].score + result * os.chain_sign(
                            node_index as int,
                            j,
                        )
                    }) by {
                        Self::lemma_chain_same(mid, os, p as int, j);
                        if j == node_index {
                            if os.on_chain(p as int, j) {
                                os.lemma_chain_in_range(p as int, j);
                            }
                            assert(!mid.on_chain(p as int, j));
                            assert(fs.nodes[j] == mid.nodes[j]);
                            assert(fs.nodes[j].score == os.nodes[j].score + result
                                * os.chain_sign(node_index as int, j)) by (nonlinear_arith)
                                requires
                                    fs.nodes[j].score == os.nodes[j].score + result,
                                    os.chain_sign(node_index as int, j) == 1,
                            ;
                        } else {
                            assert(os.nodes[node_index as int].parent == Some(p));
                            assert(os.on_chain(p as int, j));
                            os.lemma_chain_in_range(p as int, j);
                            assert(j < node_index);
                            assert(mid.nodes[j] == os.nodes[j]);
                            assert(mid.on_chain(p as int, j));
                            assert(fs.nodes[j].visits == mid.nodes[j].visits + 1);
                            assert(fs.nodes[j].score == mid.nodes[j].score + (-result)
                                * mid.chain_sign(p as int, j));
                            assert(mid.chain_sign(p as int, j) == os.chain_sign(p as int, j));
                            assert(os.chain_sign(node_index as int, j) == -os.chain_sign(
                                p as int,
                                j,
                            ));
                            os.lemma_chain_sign_unit(p as int, j);
                            assert(fs.nodes[j].score == os.nodes[j].score + result
                                * os.chain_sign(node_index as int, j)) by (nonlinear_arith)
                                requires
                                    fs.nodes[j].score == os.nodes[j].score + (-result)
                                        * os.chain_sign(p as int, j),
                                    os.chain_sign(node_index as int, j) == -os.chain_sign(
                                        p as int,
                                        j,
                                    ),
                            ;
                        }
                    }
                }
            },
            None => {
                proof {
                    assert(node_index == 0);
                    let os = *old(self);
                    let fs = *self;
                    assert forall|j: int|
                        #[trigger] os.on_chain(node_index as int, j) && 0 <= j
                            < os.nodes.len() implies ({
                        &&& fs.nodes[j].state == os.nodes[j].state
                        &&& fs.nodes[j].parent == os.nodes[j].parent
                        &&& fs.nodes[j].children == os.nodes[j].children
                        &&& fs.nodes[j].move_made == os.nodes[j].move_made
                        &&& fs.nodes[j].visits == os.nodes[j].visits + 1
                        &&& fs.nodes[j].score == os.nodes[j].score + result * os.chain_sign(
                            node_index as int,
                            j,
                        )
                    }) by {
                        assert(j == node_index);
                        assert(fs.nodes[j].score == os.nodes[j].score + result * os.chain_sign(
                            node_index as int,
                            j,
                        )) by (nonlinear_arith)
                            requires
                                fs.nodes[j].score == os.nodes[j].score + result,
                                os.chain_sign(node_index as int, j) == 1,
                        ;
                    }
                }
            },
        }
    }

    /// Walks from `node_index` up to the root via parent links: every node
    /// on that chain gains exactly one visit and has the outcome added to
    /// its score with a sign that flips at each step up; every other node
    /// is untouched.
    fn backpropagate(&mut self, result: i8, node_index: usize)
        requires
            old(self).wf(),
            node_index < old(self).nodes.len(),
            -1 <= result <= 1,
            old(self).spec_root_visits() < MAX_VISITS,
        ensures
            final(self).wf(),
            final(self).nodes.len() == old(self).nodes.len(),
            forall|j: int|
                0 <= j < old(self).nodes.len() && !old(self).on_chain(node_index as int, j)
                    ==> final(self).nodes[j] == old(self).nodes[j],
            forall|j: int|
                #[trigger] old(self).on_chain(node_index as int, j) && 0 <= j < old(self).nodes.len() ==> ({
                    &&& final(self).nodes[j].state == old(self).nodes[j].state
                    &&& final(self).nodes[j].parent == old(self).nodes[j].parent
                    &&& final(self).nodes[j].children == old(self).nodes[j].children
                    &&& final(self).nodes[j].move_made == old(self).nodes[j].move_made
                    &&& final(self).nodes[j].visits == old(self).nodes[j].visits + 1
                    &&& final(self).nodes[j].score == old(self).nodes[j].score + result * old(self).chain_sign(node_index as int, j)
                }),
            forall|j: int|
                0 <= j < old(self).nodes.len() ==> ({
                    &&& (#[trigger] final(self).nodes[j]).state == old(self).nodes[j].state
                    &&& final(self).nodes[j].parent == old(self).nodes[j].parent
                    &&& final(self).nodes[j].children == old(self).nodes[j].children
                    &&& final(self).nodes[j].move_made == old(self).nodes[j].move_made
                }),
            final(self).spec_root_visits() == old(self).spec_root_visits() + 1,
    {
        proof {
            let os = *old(self);
            assert forall|i: int|
                0 < i < os.nodes.len() implies ((#[trigger] os.nodes[i]).parent matches Some(p)
                && p < i) by {
                assert(os.node_ok(i));
            }
            assert(os.node_ok(0));
            assert(os.parents_ok());
            assert forall|j: int|
                #[trigger] os.on_chain(node_index as int, j) && 0 <= j
                    < os.nodes.len() implies os.nodes[j].visits < 0xffffffffffffffff
                && -0x7ffffffffffffffe <= os.nodes[j].score <= 0x7ffffffffffffffe by {
                assert(os.node_ok(j));
            }
        }
        self.backprop_rec(result, node_index);
        proof {
            let os = *old(self);
            let fs = *self;
            os.lemma_chain_reaches_root(node_index as int);
            assert forall|j: int|
                0 <= j < os.nodes.len() implies ({
                &&& (#[trigger] fs.nodes[j]).state == os.nodes[j].state
                &&& fs.nodes[j].parent == os.nodes[j].parent
                &&& fs.nodes[j].children == os.nodes[j].children
                &&& fs.nodes[j].move_made == os.nodes[j].move_made
            }) by {
                if os.on_chain(node_index as int, j) {
                    assert(os.on_chain(node_index as int, j) && 0 <= j < os.nodes.len());
                }
            }
            assert forall|i: int| 0 <= i < fs.nodes.len() implies fs.node_ok(i) by {
                assert(os.node_ok(i));
                if os.on_chain(node_index as int, i) {
                    os.lemma_chain_sign_unit(node_index as int, i);
                    assert(os.on_chain(node_index as int, i) && 0 <= i < os.nodes.len());
                    assert(-1 <= result * os.chain_sign(node_index as int, i) <= 1)
                        by (nonlinear_arith)
                        requires
                            -1 <= result <= 1,
                            os.chain_sign(node_index as int, i) == 1 || os.chain_sign(
                                node_index as int,
                                i,
                            ) == -1,
                    ;
                }
            }
            assert forall|i: int, k: int|
                0 <= i < fs.nodes.len() && 0 <= k < fs.nodes[i].children.len() implies fs.child_ok(
                i,
                k,
            ) by {
                assert(os.child_ok(i, k));
            }
        }
    }

    /// The root child with the highest average outcome (earliest on ties,
    /// an unvisited child counting as average zero, averages compared
    /// exactly), or no move when the root has no children.
    pub fn get_best_move(&self) -> (r: Option<BoardLoc>)
        requires
            self.wf(),
        ensures
            (r is None) <==> self.spec_root_children() == 0,
            r matches Some(m) ==> spec_is_legal(self.spec_root_state(), m),
            r matches Some(m) ==> exists|kr: int|
                #![auto]
                {
                    &&& 0 <= kr < self.spec_root_children()
                    &&& self.spec_root_child_move(kr) == Some(m)
                    &&& (forall|k: int|
                        0 <= k < self.spec_root_children() ==> self.spec_avg_le(k, kr))
                    &&& (forall|k: int| 0 <= k < kr ==> self.spec_avg_lt(k, kr))
                },
    {
        if self.nodes[0].children.len() == 0 {
            return None;
        }
        let first_child = self.nodes[0].children[0];
        assert(self.child_ok(0, 0));
        assert(self.node_ok(first_child as int));
        let mut best_node = first_child;
        let mut best_num: i64 = if self.nodes[first_child].visits == 0 {
            0
        } else {
            self.nodes[first_child].score
        };
        let mut best_den: u64 = if self.nodes[first_child].visits == 0 {
            1
        } else {
            self.nodes[first_child].visits
        };
        let ghost mut best_k: int = 0;
        let mut k: usize = 1;
        while k < self.nodes[0].children.len()
            invariant
                self.wf(),
                self.nodes[0].children.len() > 0,
                1 <= k <= self.nodes[0].children.len(),
                0 <= best_k < k,
                self.nodes[0].children[best_k] == best_node,
                best_node < self.nodes.len(),
                best_num == self.spec_avg_num(best_k),
                best_den == self.spec_avg_den(best_k),
                0 < best_den <= MAX_VISITS,
                -(best_den as int) <= best_num as int <= best_den as int,
                forall|j: int| 0 <= j < k ==> self.spec_avg_le(j, best_k),
                forall|j: int| 0 <= j < best_k ==> self.spec_avg_lt(j, best_k),
            decreases self.nodes[0].children.len() - k,
        {
            let child = self.nodes[0].children[k];
            assert(self.child_ok(0, k as int));
            assert(self.node_ok(child as int));
            let num: i64 = if self.nodes[child].visits == 0 {
                0
            } else {
                self.nodes[child].score
            };
            let den: u64 = if self.nodes[child].visits == 0 {
                1
            } else {
                self.nodes[child].visits
            };
            assert(num == self.spec_avg_num(k as int) && den == self.spec_avg_den(k as int));
            if avg_greater(num, den, best_num, best_den) {
                proof {
                    assert(self.spec_avg_lt(best_k, k as int));
                    let ob = best_k;
                    assert forall|j: int| 0 <= j < k as int implies self.spec_avg_lt(
                        j,
                        k as int,
                    ) by {
                        assert(self.spec_avg_den(j) > 0);
                        assert(self.spec_avg_le(j, ob));
                        lemma_avg_le_lt_trans(
                            self.spec_avg_num(j),
                            self.spec_avg_den(j),
                            self.spec_avg_num(ob),
                            self.spec_avg_den(ob),
                            self.spec_avg_num(k as int),
                            self.spec_avg_den(k as int),
                        );
                    }
                    assert forall|j: int| 0 <= j < k as int + 1 implies self.spec_avg_le(
                        j,
                        k as int,
                    ) by {
                        if j < k as int {
                            assert(self.spec_avg_lt(j, k as int));
                        }
                    }
                }
                best_node = child;
                best_num = num;
                best_den = den;
                proof {
                    best_k = k as int;
                }
            } else {
                proof {
                    assert(self.spec_avg_le(k as int, best_k));
                }
            }
            k = k + 1;
        }
        assert(self.child_ok(0, best_k));
        let result = self.nodes[best_node].move_made;
        proof {
            assert(self.spec_root_child_move(best_k) == result);
            assert(result is Some);
        }
        result
    }

    /// Runs exactly `simulations` select/expand/rollout/backpropagate
    /// cycles from the root (the root gains exactly one visit per cycle)
    /// and returns the move of the earliest root child with the highest
    /// exact average outcome, or no move when the root never gained a
    /// child: with a budget of zero, or with the root state already
    /// resolved, a fresh search returns no move; with a positive budget on
    /// an open root state it always returns a move, and any returned move
    /// is legal in the root state.
    pub fn find_move_sim(&mut self, simulations: usize) -> (r: Option<BoardLoc>)
        requires
            old(self).wf(),
            old(self).spec_root_visits() + simulations <= MAX_VISITS,
        ensures
            final(self).wf(),
            final(self).spec_root_state() == old(self).spec_root_state(),
            final(self).spec_root_visits() == old(self).spec_root_visits() + simulations,
            r matches Some(m) ==> spec_is_legal(old(self).spec_root_state(), m),
            r matches Some(m) ==> exists|kr: int|
                #![auto]
                {
                    &&& 0 <= kr < final(self).spec_root_children()
                    &&& final(self).spec_root_child_move(kr) == Some(m)
                    &&& (forall|k: int|
                        0 <= k < final(self).spec_root_children() ==> final(self).spec_avg_le(
                            k,
                            kr,
                        ))
                    &&& (forall|k: int| 0 <= k < kr ==> final(self).spec_avg_lt(k, kr))
                },
            (r is None) <==> final(self).spec_root_children() == 0,
            old(self).spec_root_children() == 0 && (simulations == 0 || old(self).spec_root_state().board_state != TicState::N) ==> r is None,
            old(self).spec_root_children() > 0 || (simulations > 0 && old(self).spec_root_state().board_state == TicState::N) ==> r is Some,
    {
        let mut simulations_done: usize = 0;
        while simulations_done < simulations
            invariant
                self.wf(),
                self.spec_root_state() == old(self).spec_root_state(),
                self.spec_root_visits() == old(self).spec_root_visits() + simulations_done,
                old(self).spec_root_visits() + simulations <= MAX_VISITS,
                simulations_done <= simulations,
                self.spec_root_children() >= old(self).spec_root_children(),
                simulations_done == 0 ==> self.spec_root_children() == old(self).spec_root_children(),
                old(self).spec_root_children() > 0 || (simulations_done > 0 && old(self).spec_root_state().board_state == TicState::N) ==> self.spec_root_children() > 0,
                old(self).spec_root_state().board_state != TicState::N
                    ==> self.spec_root_children() == old(self).spec_root_children(),
            decreases simulations - simulations_done,
        {
            let node = self.traverse(0);
            let simulation_result = self.rollout(node);
            self.backpropagate(simulation_result, node);
            simulations_done = simulations_done + 1;
        }
        self.get_best_move()
    }
}

/// Relies on rand::random_range over the non-empty range `0..n`: a
/// uniformly random value from that range, hence strictly below `n`.
#[verifier::external_body]
fn random_below(n: usize) -> (r: usize)
    requires
        n > 0,
    ensures
        r < n,
{
    rand::random_range(0..n)
}

} // verus!
