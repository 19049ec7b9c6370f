//! Monte Carlo tree search over Connect-4 positions of the standard board,
//! keyed by state keys: UCB1 selection, expansion, random playouts and
//! backpropagation. Value estimates are fixed-point numbers with `ONE`
//! standing for 1.
use std::collections::HashMap;
use rand_chacha::ChaCha8Rng;
use rand_distr::Distribution;
use vstd::prelude::*;
use crate::codec::{
    slot, bit, consistent, decodes_to, game_to_node, in_range, is_key_of, lemma_decoded_is_key,
    lemma_round_trip, node_to_game, terminal_bit,
};
use crate::connect4::{Connect4, connect4_legal, connect4_move, wins_at};
use vstd::arithmetic::power2::{pow2, lemma_pow2_unfold, lemma2_to64};

verus! {

broadcast use vstd::std_specs::hash::group_hash_axioms;

/// The fixed-point unit of value estimates.
pub const ONE: i64 = 65536;

/// Bound on the magnitude of value estimates and simulation results, so that
/// the sum of two of them fits in an `i64`.
pub const VALUE_LIMIT: i64 = 2305843009213693952;

/// ln 2 in fixed point (`ONE` = 1), rounded down.
pub const LN2: u64 = 45426;

#[verifier::external_type_specification]
#[verifier::external_body]
pub struct ExChaCha8Rng(ChaCha8Rng);

/// Relies on rand's `Uniform::new(0, n)` (re-exported by rand_distr) for
/// `u8`: it panics only when `n == 0`, and a sample lies in `0..n`.
#[verifier::external_body]
fn random_below(rng: &mut ChaCha8Rng, n: u8) -> (r: u8)
    requires
        n > 0,
    ensures
        r < n,
{
    rand_distr::Uniform::new(0u8, n).sample(rng)
}

/// Relies on rand's `Uniform::new(0, n)` (re-exported by rand_distr) for
/// `usize`: it panics only when `n == 0`, and a sample lies in `0..n`.
#[verifier::external_body]
fn random_index(rng: &mut ChaCha8Rng, n: usize) -> (r: usize)
    requires
        n > 0,
    ensures
        r < n,
{
    rand_distr::Uniform::new(0usize, n).sample(rng)
}

/// `x / 2`, rounded toward zero.
pub open spec fn halve(x: int) -> int {
    if x >= 0 {
        x / 2
    } else {
        -((-x) / 2)
    }
}

/// The value estimates of `tree` after averaging `value` into each node of
/// `path` in turn: a node's new estimate is `(old + value) / 2`.
pub open spec fn backprop(tree: Map<u128, (Vec<u128>, i64)>, path: Seq<u128>, value: int) -> Map<
    u128,
    (Vec<u128>, i64),
>
    decreases path.len(),
{
    if path.len() == 0 {
        tree
    } else {
        let before = backprop(tree, path.drop_last(), value);
        let k = path.last();
        before.insert(k, (before[k].0, halve(before[k].1 + value) as i64))
    }
}

/// Every estimate of `tree` lies within `VALUE_LIMIT` of zero.
pub open spec fn estimates_bounded(tree: Map<u128, (Vec<u128>, i64)>) -> bool {
    forall|k: u128| #[trigger] tree.contains_key(k) ==> -VALUE_LIMIT <= tree[k].1 <= VALUE_LIMIT
}

proof fn lemma_backprop_keeps(tree: Map<u128, (Vec<u128>, i64)>, path: Seq<u128>, value: int)
    requires
        estimates_bounded(tree),
        -VALUE_LIMIT <= value <= VALUE_LIMIT,
        forall|i: int| 0 <= i < path.len() ==> tree.contains_key(#[trigger] path[i]),
    ensures
        estimates_bounded(backprop(tree, path, value)),
        backprop(tree, path, value).dom() == tree.dom(),
        forall|k: u128| #[trigger] tree.contains_key(k) ==> backprop(tree, path, value)[k].0 == tree[k].0,
    decreases path.len(),
{
    if path.len() > 0 {
        lemma_backprop_keeps(tree, path.drop_last(), value);
        let before = backprop(tree, path.drop_last(), value);
        assert(tree.contains_key(path[path.len() - 1]));
        assert(before.insert(path.last(), (before[path.last()].0, halve(before[path.last()].1 + value) as i64)).dom()
            =~= tree.dom());
    }
}

/// Averages the simulation result `value` into the estimate of every node
/// on `path`, in order: each becomes `(old + value) / 2`, rounded toward zero.
pub fn backpropagate(value: i64, path: &Vec<u128>, tree: &mut HashMap<u128, (Vec<u128>, i64)>)
    requires
        estimates_bounded(old(tree)@),
        -VALUE_LIMIT <= value <= VALUE_LIMIT,
        forall|i: int| 0 <= i < path@.len() ==> old(tree)@.contains_key(#[trigger] path@[i]),
    ensures
        final(tree)@ == backprop(old(tree)@, path@, value as int),
        estimates_bounded(final(tree)@),
{
    let ghost start = tree@;
    let mut i: usize = 0;
    while i < path.len()
        invariant
            estimates_bounded(start),
            -VALUE_LIMIT <= value <= VALUE_LIMIT,
            forall|j: int| 0 <= j < path@.len() ==> start.contains_key(#[trigger] path@[j]),
            i <= path@.len(),
            tree@ == backprop(start, path@.take(i as int), value as int),
        decreases path@.len() - i,
    {
        proof {
            lemma_backprop_keeps(start, path@.take(i as int), value as int);
            assert(start.contains_key(path@[i as int]));
            assert(path@.take(i + 1).drop_last() =~= path@.take(i as int));
        }
        let key = path[i];
        let ghost before = tree@;
        assert(estimates_bounded(before));
        match tree.remove(&key) {
            Some((children, old_value)) => {
                assert(before.contains_key(key));
                assert(before[key] == (children, old_value));
                assert(-VALUE_LIMIT <= before[key].1 <= VALUE_LIMIT);
                let sum = old_value + value;
                let averaged = if sum >= 0 {
                    sum / 2
                } else {
                    -((-sum) / 2)
                };
                tree.insert(key, (children, averaged));
            },
            None => {},
        }
        i = i + 1;
    }
    proof {
        assert(path@.take(path@.len() as int) =~= path@);
        lemma_backprop_keeps(start, path@, value as int);
    }
}

/// A key of a board of the standard size that decodes.
pub open spec fn valid_key(key: u128) -> bool {
    in_range(key, 42) && consistent(key, 7, 6)
}

/// The statistics tree: for each state key its children and value estimate,
/// a visit count per key, and the number of visits made in all.
pub struct SearchTree {
    pub nodes: HashMap<u128, (Vec<u128>, i64)>,
    pub visits: HashMap<u128, u64>,
    pub total: u64,
}

impl SearchTree {
    /// Keys are valid, estimates bounded, children present in the tree, and
    /// no visit count exceeds the total.
    pub open spec fn wf(&self) -> bool {
        &&& estimates_bounded(self.nodes@)
        &&& forall|k: u128| #[trigger]
            self.nodes@.contains_key(k) ==> {
                &&& valid_key(k)
                &&& forall|i: int|
                    0 <= i < self.nodes@[k].0@.len() ==> self.nodes@.contains_key(#[trigger] self.nodes@[k].0@[i])
            }
        &&& forall|k: u128| #[trigger] self.visits@.contains_key(k) ==> self.visits@[k] <= self.total
    }

    /// Visits recorded for `k` (none where it has no entry).
    pub open spec fn visits_of(&self, k: u128) -> nat {
        if self.visits@.contains_key(k) {
            self.visits@[k] as nat
        } else {
            0
        }
    }

    /// A tree holding only `root`, unexpanded, with no visits.
    pub fn new(root: u128) -> (tree: SearchTree)
        requires
            valid_key(root),
        ensures
            tree.wf(),
            tree.nodes@.dom() == set![root],
            tree.nodes@[root].0@.len() == 0,
            tree.nodes@[root].1 == 0,
            tree.visits@.dom() == Set::<u128>::empty(),
            tree.total == 0,
    {
        let mut nodes: HashMap<u128, (Vec<u128>, i64)> = HashMap::new();
        nodes.insert(root, (Vec::new(), 0));
        let visits: HashMap<u128, u64> = HashMap::new();
        let tree = SearchTree { nodes, visits, total: 0 };
        assert(tree.nodes@.dom() =~= set![root]);
        assert(tree.visits@.dom() =~= Set::<u128>::empty());
        tree
    }

    fn visit_count(&self, k: u128) -> (n: u64)
        ensures
            n == self.visits_of(k),
    {
        match self.visits.get(&k) {
            Some(v) => *v,
            None => 0,
        }
    }
}

/// ⌊log₂ x⌋, and 0 for 0 and 1.
pub open spec fn ilog2(x: nat) -> nat
    decreases x,
{
    if x <= 1 {
        0
    } else {
        1 + ilog2(x / 2)
    }
}

/// ⌊√x⌋.
pub open spec fn isqrt(x: int) -> int {
    choose|r: int| #[trigger] is_floor_sqrt(x, r)
}

/// `r` is ⌊√x⌋.
pub open spec fn is_floor_sqrt(x: int, r: int) -> bool {
    0 <= r && r * r <= x && x < (r + 1) * (r + 1)
}

/// log₂ x in fixed point (`ONE` = 1), interpolated linearly between powers
/// of two: ⌊log₂ x⌋ plus the fraction of the way from 2^⌊log₂ x⌋ to the next
/// power. An approximation, low by at most 0.09; exact at powers of two. 0 for
/// 0 and 1.
pub open spec fn log2_fixed(x: nat) -> int {
    let k = ilog2(x);
    if x <= 1 {
        0
    } else {
        k * ONE + ((x - pow2(k)) * ONE) / (pow2(k) as int)
    }
}

/// ln x in fixed point: `log2_fixed(x) · ln 2`, rounded down. An
/// approximation of the natural logarithm.
pub open spec fn ln_fixed(x: nat) -> int {
    (log2_fixed(x) * LN2) / (ONE as int)
}

/// The UCB1 exploration bonus √(ln total / n) in fixed point, with the
/// natural logarithm approximated by `ln_fixed`.
pub open spec fn exploration(total: nat, n: nat) -> int {
    isqrt((ln_fixed(total) * ONE) / n as int)
}

/// UCB1 score of `k`: its value estimate plus the exploration bonus.
pub open spec fn ucb_score(tree: SearchTree, k: u128) -> int {
    tree.nodes@[k].1 + exploration(tree.total as nat, tree.visits_of(k))
}

/// UCB1 score of `k` given the estimates `nodes`, visit counts `visits` and
/// total `total`.
pub open spec fn ucb(nodes: Map<u128, (Vec<u128>, i64)>, visits: spec_fn(u128) -> nat, total: nat, k: u128) -> int {
    nodes[k].1 + exploration(total, visits(k))
}

/// `index` is the UCB1 choice among `children`: the first child never
/// visited, if there is one; otherwise the first child of highest score.
pub open spec fn is_selection(
    nodes: Map<u128, (Vec<u128>, i64)>,
    visits: spec_fn(u128) -> nat,
    total: nat,
    children: Seq<u128>,
    index: int,
) -> bool {
    &&& 0 <= index < children.len()
    &&& (exists|i: int| 0 <= i < children.len() && visits(#[trigger] children[i]) == 0) ==> {
        &&& visits(children[index]) == 0
        &&& forall|j: int| 0 <= j < index ==> visits(#[trigger] children[j]) > 0
    }
    &&& (forall|i: int| 0 <= i < children.len() ==> visits(#[trigger] children[i]) > 0) ==> {
        &&& forall|j: int|
            0 <= j < children.len() ==> ucb(nodes, visits, total, #[trigger] children[j]) <= ucb(
                nodes,
                visits,
                total,
                children[index],
            )
        &&& forall|j: int|
            0 <= j < index ==> ucb(nodes, visits, total, #[trigger] children[j]) < ucb(nodes, visits, total, children[index])
    }
}

proof fn lemma_isqrt_unique(x: int, r: int)
    requires
        0 <= r,
        r * r <= x,
        x < (r + 1) * (r + 1),
    ensures
        isqrt(x) == r,
{
    assert(is_floor_sqrt(x, r));
    let s = isqrt(x);
    assert(is_floor_sqrt(x, s));
    assert(0 <= s && s * s <= x && x < (s + 1) * (s + 1));
    if s < r {
        assert((s + 1) * (s + 1) <= r * r) by (nonlinear_arith)
            requires 0 <= s, s < r;
    } else if s > r {
        assert((r + 1) * (r + 1) <= s * s) by (nonlinear_arith)
            requires 0 <= r, r < s;
    }
}

fn int_sqrt(x: u64) -> (r: u64)
    ensures
        r == isqrt(x as int),
        r <= 4294967296,
{
    let mut lo: u64 = 0;
    let mut hi: u64 = 4294967296;
    assert(x < 4294967296 * 4294967296) by (nonlinear_arith)
        requires x <= u64::MAX;
    while hi - lo > 1
        invariant
            lo < hi <= 4294967296,
            lo * lo <= x,
            x < hi * hi,
        decreases hi - lo,
    {
        let mid = lo + (hi - lo) / 2;
        assert(mid * mid <= 4294967296 * 4294967296) by (nonlinear_arith)
            requires mid <= 4294967296;
        if (mid as u128) * (mid as u128) <= x as u128 {
            lo = mid;
        } else {
            hi = mid;
        }
    }
    proof {
        lemma_isqrt_unique(x as int, lo as int);
    }
    lo
}

proof fn lemma_ilog2_below(x: nat, k: nat)
    requires
        k >= 1,
        x < pow2(k),
    ensures
        ilog2(x) < k,
    decreases k,
{
    if x > 1 {
        lemma_pow2_unfold(k);
        if k == 1 {
            assert(pow2(0) == 1) by {
                lemma2_to64();
            }
        } else {
            lemma_ilog2_below(x / 2, (k - 1) as nat);
        }
    }
}

fn int_log2(x: u64) -> (r: u64)
    ensures
        r == ilog2(x as nat),
        r <= 64,
{
    proof {
        lemma2_to64();
        lemma_ilog2_below(x as nat, 64);
    }
    let mut t = x;
    let mut l: u64 = 0;
    while t > 1
        invariant
            ilog2(x as nat) == l + ilog2(t as nat),
            l + ilog2(t as nat) <= 64,
            t <= u64::MAX,
        decreases t,
    {
        t = t / 2;
        l = l + 1;
    }
    l
}

proof fn lemma_ilog2_pow2(x: nat)
    requires
        x >= 1,
    ensures
        pow2(ilog2(x)) <= x < 2 * pow2(ilog2(x)),
    decreases x,
{
    lemma2_to64();
    if x > 1 {
        lemma_ilog2_pow2(x / 2);
        lemma_pow2_unfold(ilog2(x));
    }
}

/// `ln_fixed(x)`.
fn ln_approx(x: u64) -> (r: u64)
    ensures
        r == ln_fixed(x as nat),
        r <= 64 * 45426,
{
    if x <= 1 {
        return 0;
    }
    let k = int_log2(x);
    proof {
        lemma2_to64();
        lemma_ilog2_pow2(x as nat);
        lemma_ilog2_below(x as nat, 64);
    }
    assert(k < 64);
    let p: u64 = 1u64 << k;
    assert(p == pow2(k as nat)) by {
        vstd::arithmetic::power2::lemma_pow2(k as nat);
        vstd::bits::lemma_u64_shl_is_mul(1, k);
        vstd::arithmetic::power::lemma_pow1(2);
    }
    let num: u128 = (x - p) as u128 * 65536u128;
    let q: u128 = num / (p as u128);
    assert(q < 65536) by (nonlinear_arith)
        requires q as int == (num as int) / (p as int), num as int == (x - p) * 65536, x < 2 * p, p > 0;
    let frac = q as u64;
    let log2 = k * 65536 + frac;
    assert(log2 < 64 * 65536);
    let r = (log2 * LN2) / 65536;
    assert(r <= 64 * 45426) by (nonlinear_arith)
        requires r == (log2 * 45426) / 65536, log2 < 64 * 65536;
    r
}

/// The exploration bonus of a node visited `n` times out of `total`.
pub fn exploration_bonus(total: u64, n: u64) -> (bonus: u64)
    requires
        n > 0,
    ensures
        bonus == exploration(total as nat, n as nat),
        bonus <= 4294967296,
{
    let l = ln_approx(total);
    int_sqrt(l * 65536 / n)
}

/// UCB1 selection among `children`: the first child never visited, if
/// there is one; otherwise the first child of highest score, value estimate
/// plus exploration bonus.
pub fn select_child(children: &Vec<u128>, tree: &SearchTree) -> (index: usize)
    requires
        children@.len() > 0,
        tree.wf(),
        forall|i: int| 0 <= i < children@.len() ==> tree.nodes@.contains_key(#[trigger] children@[i]),
    ensures
        index < children@.len(),
        (exists|i: int| 0 <= i < children@.len() && #[trigger] tree.visits_of(children@[i]) == 0) ==> {
            &&& tree.visits_of(children@[index as int]) == 0
            &&& forall|j: int| 0 <= j < index ==> #[trigger] tree.visits_of(children@[j]) > 0
        },
        (forall|i: int| 0 <= i < children@.len() ==> #[trigger] tree.visits_of(children@[i]) > 0) ==> {
            &&& forall|j: int| 0 <= j < children@.len() ==> #[trigger] ucb_score(*tree, children@[j]) <= ucb_score(*tree, children@[index as int])
            &&& forall|j: int| 0 <= j < index ==> #[trigger] ucb_score(*tree, children@[j]) < ucb_score(*tree, children@[index as int])
        },
        is_selection(tree.nodes@, |k: u128| tree.visits_of(k), tree.total as nat, children@, index as int),
{
    let mut i: usize = 0;
    while i < children.len()
        invariant
            i <= children@.len(),
            forall|j: int| 0 <= j < i ==> #[trigger] tree.visits_of(children@[j]) > 0,
        decreases children@.len() - i,
    {
        if tree.visit_count(children[i]) == 0 {
            assert(is_selection(tree.nodes@, |k: u128| tree.visits_of(k), tree.total as nat, children@, i as int));
            return i;
        }
        i = i + 1;
    }
    let mut best: usize = 0;
    let mut best_score: i64 = 0;
    let mut k: usize = 0;
    while k < children.len()
        invariant
            tree.wf(),
            forall|i: int| 0 <= i < children@.len() ==> tree.nodes@.contains_key(#[trigger] children@[i]),
            forall|j: int| 0 <= j < children@.len() ==> #[trigger] tree.visits_of(children@[j]) > 0,
            k <= children@.len(),
            best < children@.len(),
            k == 0 ==> best == 0,
            k > 0 ==> best < k && best_score == ucb_score(*tree, children@[best as int]),
            forall|j: int| 0 <= j < k ==> #[trigger] ucb_score(*tree, children@[j]) <= ucb_score(*tree, children@[best as int]),
            forall|j: int| 0 <= j < best ==> #[trigger] ucb_score(*tree, children@[j]) < ucb_score(*tree, children@[best as int]),
        decreases children@.len() - k,
    {
        let key = children[k];
        let value = match tree.nodes.get(&key) {
            Some(entry) => entry.1,
            None => 0,
        };
        assert(tree.nodes@.contains_key(key));
        assert(-VALUE_LIMIT <= tree.nodes@[key].1 <= VALUE_LIMIT);
        let n = tree.visit_count(key);
        assert(tree.visits_of(children@[k as int]) > 0);
        let score = value + exploration_bonus(tree.total, n) as i64;
        if k == 0 || score > best_score {
            best = k;
            best_score = score;
        }
        k = k + 1;
    }
    proof {
        let f = |q: u128| tree.visits_of(q);
        assert forall|j: int| 0 <= j < children@.len() implies ucb(tree.nodes@, f, tree.total as nat, #[trigger] children@[j])
            == ucb_score(*tree, children@[j]) by {}
        assert(!(exists|i: int| 0 <= i < children@.len() && f(#[trigger] children@[i]) == 0));
    }
    best
}

/// Columns among the first `k` of `cells` that have room on a board `h` tall,
/// in order.
pub open spec fn legal_columns(cells: Seq<Seq<bool>>, h: int, k: int) -> Seq<int>
    decreases k,
{
    if k <= 0 {
        Seq::empty()
    } else if cells[k - 1].len() < h {
        legal_columns(cells, h, k - 1).push(k - 1)
    } else {
        legal_columns(cells, h, k - 1)
    }
}

/// `key` is the key of the position after the side to move in `game`
/// plays column `c`, flagged terminal exactly where that move wins.
pub open spec fn is_successor_key(game: Connect4, c: int, key: u128) -> bool {
    let cells = game.cells();
    let next = cells.update(c, cells[c].push(game.player));
    is_key_of(next, game.height as int, !game.player, wins_at(next, c, cells[c].len() as int, game.player), key)
}

/// The children that expansion gives `node`: none for a terminal key;
/// otherwise, for the board the key decodes to, one successor key per
/// column with room, in column order.
pub open spec fn expands_to(node: u128, children: Seq<u128>) -> bool {
    &&& terminal_bit(node, 42) ==> children.len() == 0
    &&& !terminal_bit(node, 42) ==> forall|g: Connect4|
        #[trigger] decodes_to(node, 7, 6, g) ==> {
            &&& children.len() == legal_columns(g.cells(), 6, 7).len()
            &&& forall|i: int|
                0 <= i < children.len() ==> is_successor_key(g, legal_columns(g.cells(), 6, 7)[i], #[trigger] children[i])
        }
}

proof fn lemma_legal_columns_nonempty(cells: Seq<Seq<bool>>, h: int, k: int, c: int)
    requires
        0 <= c < k,
        cells[c].len() < h,
    ensures
        legal_columns(cells, h, k).len() > 0,
    decreases k,
{
    if c < k - 1 {
        lemma_legal_columns_nonempty(cells, h, k - 1, c);
    }
}

/// Number of occupied cells.
pub open spec fn filled(cells: Seq<Seq<bool>>) -> int
    decreases cells.len(),
{
    if cells.len() == 0 {
        0
    } else {
        filled(cells.drop_last()) + cells.last().len()
    }
}

proof fn lemma_filled_push(cells: Seq<Seq<bool>>, c: int, x: bool)
    requires
        0 <= c < cells.len(),
    ensures
        filled(cells.update(c, cells[c].push(x))) == filled(cells) + 1,
    decreases cells.len(),
{
    let next = cells.update(c, cells[c].push(x));
    if c < cells.len() - 1 {
        assert(next.drop_last() =~= cells.drop_last().update(c, cells[c].push(x)));
        lemma_filled_push(cells.drop_last(), c, x);
    } else {
        assert(next.drop_last() =~= cells.drop_last());
    }
}

proof fn lemma_filled_bound(cells: Seq<Seq<bool>>, h: int)
    requires
        forall|i: int| 0 <= i < cells.len() ==> #[trigger] cells[i].len() <= h,
    ensures
        0 <= filled(cells) <= cells.len() * h,
    decreases cells.len(),
{
    if cells.len() > 0 {
        lemma_filled_bound(cells.drop_last(), h);
        assert((cells.len() - 1) * h + h == cells.len() * h) by (nonlinear_arith);
    }
}

/// Child keys of `node`: one per column with room, in column order, each the
/// key of the position after that move. A terminal position has none.
fn successor_keys(node: u128) -> (keys: Vec<u128>)
    requires
        valid_key(node),
    ensures
        expands_to(node, keys@),
        playable(node) ==> keys@.len() > 0,
        forall|i: int| 0 <= i < keys@.len() ==> valid_key(#[trigger] keys@[i]),
{
    let mut keys: Vec<u128> = Vec::new();
    if (node >> 85u128) & 1u128 == 1u128 {
        return keys;
    }
    let game = match node_to_game(node) {
        Ok(g) => g,
        Err(_) => {
            return keys;
        },
    };
    proof {
        lemma_decoded_is_key(node, 7, 6, game);
        assert forall|g: Connect4| #[trigger] decodes_to(node, 7, 6, g) implies g.cells() == game.cells()
            && g.player == game.player && g.height == game.height by {
            lemma_round_trip(game, terminal_bit(node, 42), node, g);
        }
    }
    let legal = connect4_legal(&game);
    let mut c: usize = 0;
    while c < 7
        invariant
            game.wf(),
            game.columns@.len() == 7,
            game.height == 6,
            legal@.len() == 7,
            forall|i: int| 0 <= i < 7 ==> #[trigger] legal@[i] == (game.columns@[i]@.len() < game.height),
            c <= 7,
            keys@.len() == legal_columns(game.cells(), 6, c as int).len(),
            forall|i: int|
                0 <= i < keys@.len() ==> is_successor_key(game, legal_columns(game.cells(), 6, c as int)[i], #[trigger] keys@[i]),
            forall|i: int| 0 <= i < keys@.len() ==> valid_key(#[trigger] keys@[i]),
        decreases 7 - c,
    {
        assert(game.cells()[c as int] == game.columns@[c as int]@);
        if legal[c] {
            match connect4_move(c as u8, &game) {
                Ok((end, next)) => {
                    let key = game_to_node(&next, end);
                    proof {
                        lemma_round_trip(next, end, key, next);
                        assert(next.cells().len() == 7);
                    }
                    keys.push(key);
                },
                Err(_) => {},
            }
        }
        c = c + 1;
    }
    proof {
        if playable(node) {
            let c = choose|c: int| 0 <= c < 7 && !#[trigger] bit(node, 42 + c * 6 + 5);
            assert(slot(6, c, 5) == c * 6 + 5);
            assert(game.cells()[c].len() <= 5);
            lemma_legal_columns_nonempty(game.cells(), 6, 7, c);
        }
    }
    keys
}

fn copy_keys(keys: &Vec<u128>) -> (copy: Vec<u128>)
    ensures
        copy@ == keys@,
{
    let mut copy: Vec<u128> = Vec::new();
    let mut i: usize = 0;
    while i < keys.len()
        invariant
            i <= keys@.len(),
            copy@ == keys@.take(i as int),
        decreases keys@.len() - i,
    {
        copy.push(keys[i]);
        i = i + 1;
        assert(copy@ =~= keys@.take(i as int));
    }
    assert(copy@ =~= keys@);
    copy
}

/// Expands the unexpanded node `node`: every successor key gets an entry
/// (a fresh one with no children and estimate 0 where it had none), and
/// becomes, in column order, a child of `node`. Returns the children.
pub fn expand(node: u128, tree: &mut SearchTree) -> (children: Vec<u128>)
    requires
        old(tree).wf(),
        old(tree).nodes@.contains_key(node),
        old(tree).nodes@[node].0@.len() == 0,
    ensures
        final(tree).wf(),
        final(tree).total == old(tree).total,
        final(tree).visits@ == old(tree).visits@,
        final(tree).nodes@.contains_key(node),
        final(tree).nodes@[node].0@ == children@,
        final(tree).nodes@[node].1 == old(tree).nodes@[node].1,
        forall|k: u128|
            #[trigger] old(tree).nodes@.contains_key(k) && k != node ==> final(tree).nodes@.contains_key(k)
                && final(tree).nodes@[k] == old(tree).nodes@[k],
        forall|k: u128|
            #[trigger] final(tree).nodes@.contains_key(k) && !old(tree).nodes@.contains_key(k)
                ==> final(tree).nodes@[k].0@.len() == 0 && final(tree).nodes@[k].1 == 0,
        expands_to(node, children@),
        playable(node) ==> children@.len() > 0,
{
    let keys = successor_keys(node);
    let mut i: usize = 0;
    while i < keys.len()
        invariant
            tree.wf(),
            tree.total == old(tree).total,
            tree.visits@ == old(tree).visits@,
            tree.nodes@.contains_key(node),
            tree.nodes@[node] == old(tree).nodes@[node],
            forall|k: u128|
                #[trigger] old(tree).nodes@.contains_key(k) ==> tree.nodes@.contains_key(k)
                    && tree.nodes@[k] == old(tree).nodes@[k],
            forall|k: u128|
                #[trigger] tree.nodes@.contains_key(k) && !old(tree).nodes@.contains_key(k) ==> tree.nodes@[k].0@.len() == 0
                    && tree.nodes@[k].1 == 0,
            forall|j: int| 0 <= j < keys@.len() ==> valid_key(#[trigger] keys@[j]),
            forall|j: int| 0 <= j < i ==> tree.nodes@.contains_key(#[trigger] keys@[j]),
            i <= keys@.len(),
        decreases keys@.len() - i,
    {
        let key = keys[i];
        if !tree.nodes.contains_key(&key) {
            tree.nodes.insert(key, (Vec::new(), 0));
        }
        i = i + 1;
    }
    let stored = copy_keys(&keys);
    let ghost before = tree.nodes@;
    match tree.nodes.remove(&node) {
        Some((_, value)) => {
            tree.nodes.insert(node, (stored, value));
        },
        None => {},
    }
    proof {
        assert forall|k: u128| #[trigger] tree.nodes@.contains_key(k) implies {
            &&& valid_key(k)
            &&& forall|j: int|
                0 <= j < tree.nodes@[k].0@.len() ==> tree.nodes@.contains_key(#[trigger] tree.nodes@[k].0@[j])
        } by {
            assert(before.contains_key(k));
            if k != node {
                assert(tree.nodes@[k] == before[k]);
            }
        }
    }
    keys
}

/// Whether `key` carries the terminal flag of a standard board.
fn is_terminal_key(key: u128) -> (t: bool)
    ensures
        t == terminal_bit(key, 42),
{
    (key >> 85u128) & 1u128 == 1u128
}

/// A random column with room: columns are drawn uniformly from `0..7` until
/// one with room comes up, falling back on the first such column after
/// `MAX_DRAWS` draws.
fn random_legal_column(legal: &Vec<bool>, rng: &mut ChaCha8Rng) -> (c: u8)
    requires
        legal@.len() == 7,
        exists|i: int| 0 <= i < 7 && #[trigger] legal@[i],
    ensures
        c < 7,
        legal@[c as int],
{
    let mut draws: u32 = 0;
    while draws < MAX_DRAWS
        invariant
            legal@.len() == 7,
        decreases MAX_DRAWS - draws,
    {
        let choice = random_below(rng, 7);
        if legal[choice as usize] {
            return choice;
        }
        draws = draws + 1;
    }
    let mut c: u8 = 0;
    while c < 7
        invariant
            legal@.len() == 7,
            exists|i: int| 0 <= i < 7 && #[trigger] legal@[i],
            c <= 7,
            forall|i: int| 0 <= i < c ==> !#[trigger] legal@[i],
        decreases 7 - c,
    {
        if legal[c as usize] {
            return c;
        }
        c = c + 1;
    }
    c
}

/// Draws allowed before a playout move falls back on the first open column.
pub const MAX_DRAWS: u32 = 1000;

/// No column of the standard board has room.
pub open spec fn board_full(cells: Seq<Seq<bool>>) -> bool {
    forall|c: int| 0 <= c < 7 ==> #[trigger] cells[c].len() >= 6
}

/// `moves` is a game played out on the standard board from `cells` with
/// `player` to move: each column has room when it is played, no move but the
/// last wins, and the game ends at the first win or once the board is full.
pub open spec fn is_playout(cells: Seq<Seq<bool>>, player: bool, moves: Seq<int>) -> bool
    decreases moves.len(),
{
    if moves.len() == 0 {
        board_full(cells)
    } else {
        let c = moves[0];
        let next = cells.update(c, cells[c].push(player));
        &&& 0 <= c < 7
        &&& cells[c].len() < 6
        &&& if wins_at(next, c, cells[c].len() as int, player) {
            moves.len() == 1
        } else {
            is_playout(next, !player, moves.drop_first())
        }
    }
}

/// `moves`, played from `cells` with `player` to move, each into a column
/// with room and none winning, leads to `end_cells` with `end_player` to move.
pub open spec fn is_opening(
    cells: Seq<Seq<bool>>,
    player: bool,
    moves: Seq<int>,
    end_cells: Seq<Seq<bool>>,
    end_player: bool,
) -> bool
    decreases moves.len(),
{
    if moves.len() == 0 {
        cells == end_cells && player == end_player
    } else {
        let c = moves[0];
        let next = cells.update(c, cells[c].push(player));
        &&& 0 <= c < 7
        &&& cells[c].len() < 6
        &&& !wins_at(next, c, cells[c].len() as int, player)
        &&& is_opening(next, !player, moves.drop_first(), end_cells, end_player)
    }
}

/// Score of a finished game in which `player` was to move first and `n`
/// moves were made: `ONE` where the first player (`false`) made the last
/// move, so that the second is to move; `-ONE` otherwise.
pub open spec fn playout_score(player: bool, n: nat) -> int {
    let to_move = if n % 2 == 0 {
        player
    } else {
        !player
    };
    if to_move {
        ONE as int
    } else {
        -ONE
    }
}

proof fn lemma_opening_push(
    cells: Seq<Seq<bool>>,
    player: bool,
    moves: Seq<int>,
    cur: Seq<Seq<bool>>,
    cur_player: bool,
    c: int,
)
    requires
        is_opening(cells, player, moves, cur, cur_player),
        0 <= c < 7,
        cur[c].len() < 6,
        !wins_at(cur.update(c, cur[c].push(cur_player)), c, cur[c].len() as int, cur_player),
    ensures
        is_opening(cells, player, moves.push(c), cur.update(c, cur[c].push(cur_player)), !cur_player),
    decreases moves.len(),
{
    let next = cur.update(c, cur[c].push(cur_player));
    if moves.len() == 0 {
        assert(moves.push(c).drop_first() =~= Seq::<int>::empty());
        assert(is_opening(next, !cur_player, Seq::<int>::empty(), next, !cur_player));
    } else {
        let first = cells.update(moves[0], cells[moves[0]].push(player));
        lemma_opening_push(first, !player, moves.drop_first(), cur, cur_player, c);
        assert(moves.push(c).drop_first() =~= moves.drop_first().push(c));
    }
}

proof fn lemma_opening_then_playout(
    cells: Seq<Seq<bool>>,
    player: bool,
    moves: Seq<int>,
    cur: Seq<Seq<bool>>,
    cur_player: bool,
    rest: Seq<int>,
)
    requires
        is_opening(cells, player, moves, cur, cur_player),
        is_playout(cur, cur_player, rest),
    ensures
        is_playout(cells, player, moves + rest),
    decreases moves.len(),
{
    if moves.len() == 0 {
        assert(moves + rest =~= rest);
    } else {
        let first = cells.update(moves[0], cells[moves[0]].push(player));
        lemma_opening_then_playout(first, !player, moves.drop_first(), cur, cur_player, rest);
        assert((moves + rest).drop_first() =~= moves.drop_first() + rest);
        assert((moves + rest)[0] == moves[0]);
    }
}

/// The score of a finished game whose board is `game`: `ONE` where the
/// second player (`true`) is to move, that is, the first made the last move.
pub fn final_score(game: &Connect4) -> (score: i64)
    ensures
        score == if game.player {
            ONE as int
        } else {
            -ONE
        },
{
    if game.player {
        ONE
    } else {
        -ONE
    }
}

/// What `rollout` may return from `node`: on a terminal key, the score of the
/// side not to move having won; otherwise the score of some game played out
/// from the decoded board.
pub open spec fn rollout_outcome(node: u128, result: int) -> bool {
    &&& result == ONE || result == -ONE
    &&& terminal_bit(node, 42) ==> result == if bit(node, 84) {
        ONE as int
    } else {
        -ONE
    }
    &&& !terminal_bit(node, 42) ==> forall|g: Connect4|
        #[trigger] decodes_to(node, 7, 6, g) ==> exists|moves: Seq<int>|
            is_playout(g.cells(), g.player, moves) && result == playout_score(g.player, moves.len())
}

/// Random playout from `node` to the end of the game: columns with room are
/// drawn at random until a move wins or the board is full. The result is
/// `ONE` where the first player (`false`) made the last move, `-ONE` where the
/// second did. A terminal key is scored at once.
pub fn rollout(node: u128, rng: &mut ChaCha8Rng) -> (result: i64)
    requires
        valid_key(node),
    ensures
        rollout_outcome(node, result as int),
{
    let mut game = match node_to_game(node) {
        Ok(g) => g,
        Err(_) => {
            return 0;
        },
    };
    proof {
        lemma_decoded_is_key(node, 7, 6, game);
        assert forall|g: Connect4| #[trigger] decodes_to(node, 7, 6, g) implies g.cells() == game.cells()
            && g.player == game.player by {
            lemma_round_trip(game, terminal_bit(node, 42), node, g);
        }
    }
    if is_terminal_key(node) {
        return final_score(&game);
    }
    let ghost start = game.cells();
    let ghost p0 = game.player;
    let ghost mut moves: Seq<int> = Seq::empty();
    let mut terminal = false;
    proof {
        assert forall|i: int| 0 <= i < game.cells().len() implies #[trigger] game.cells()[i].len() <= 6 by {
            assert(game.cells()[i] == game.columns@[i]@);
        }
        lemma_filled_bound(game.cells(), 6);
    }
    while !terminal
        invariant
            !terminal_bit(node, 42),
            game.wf(),
            game.columns@.len() == 7,
            game.height == 6,
            0 <= filled(game.cells()) <= 42,
            game.player == if moves.len() % 2 == 0 {
                p0
            } else {
                !p0
            },
            !terminal ==> is_opening(start, p0, moves, game.cells(), game.player),
            terminal ==> is_playout(start, p0, moves),
        decreases 42 - filled(game.cells()) + (if terminal { 0int } else { 1int }),
    {
        let legal = connect4_legal(&game);
        let mut open = false;
        let mut c: usize = 0;
        while c < 7
            invariant
                legal@.len() == 7,
                c <= 7,
                open == exists|i: int| 0 <= i < c && #[trigger] legal@[i],
            decreases 7 - c,
        {
            if legal[c] {
                open = true;
            }
            c = c + 1;
        }
        if !open {
            proof {
                assert forall|i: int| 0 <= i < 7 implies #[trigger] game.cells()[i].len() >= 6 by {
                    assert(!legal@[i]);
                    assert(game.cells()[i] == game.columns@[i]@);
                }
                lemma_opening_then_playout(start, p0, moves, game.cells(), game.player, Seq::empty());
                assert(moves + Seq::<int>::empty() =~= moves);
            }
            terminal = true;
        } else {
            let column = random_legal_column(&legal, rng);
            match connect4_move(column, &game) {
                Ok((end, next)) => {
                    proof {
                        let cur = game.cells();
                        let ci = column as int;
                        assert(cur[ci] == game.columns@[ci]@);
                        lemma_filled_push(cur, ci, game.player);
                        assert forall|i: int| 0 <= i < next.cells().len() implies #[trigger] next.cells()[i].len() <= 6 by {
                            assert(next.cells()[i] == next.columns@[i]@);
                        }
                        lemma_filled_bound(next.cells(), 6);
                        if end {
                            let rest = seq![ci];
                            assert(rest.drop_first() =~= Seq::<int>::empty());
                            assert(is_playout(cur, game.player, rest));
                            lemma_opening_then_playout(start, p0, moves, cur, game.player, rest);
                            assert(moves + rest =~= moves.push(ci));
                        } else {
                            lemma_opening_push(start, p0, moves, cur, game.player, ci);
                        }
                        moves = moves.push(ci);
                    }
                    terminal = end;
                    game = next;
                },
                Err(_) => {
                    return 0;
                },
            }
        }
    }
    final_score(&game)
}

/// Steps a descent may take: a game on the standard board lasts at most 42
/// moves, so a tree grown by expansion is never deeper.
pub const MAX_DEPTH: u64 = 43;

/// Counts one visit of `k`, and one in the total.
fn record_visit(tree: &mut SearchTree, k: u128)
    requires
        old(tree).wf(),
        old(tree).total < u64::MAX,
    ensures
        final(tree).wf(),
        final(tree).total == old(tree).total + 1,
        final(tree).nodes@ == old(tree).nodes@,
        final(tree).visits_of(k) == old(tree).visits_of(k) + 1,
        forall|j: u128| j != k ==> #[trigger] final(tree).visits_of(j) == old(tree).visits_of(j),
{
    let n = tree.visit_count(k);
    tree.total = tree.total + 1;
    tree.visits.insert(k, n + 1);
}

/// Copy of the children of `node`.
fn children_of(tree: &SearchTree, node: u128) -> (children: Vec<u128>)
    requires
        tree.nodes@.contains_key(node),
    ensures
        children@ == tree.nodes@[node].0@,
{
    match tree.nodes.get(&node) {
        Some(entry) => copy_keys(&entry.0),
        None => Vec::new(),
    }
}

/// How many times `k` occurs in `s`.
pub open spec fn occurrences(s: Seq<u128>, k: u128) -> nat
    decreases s.len(),
{
    if s.len() == 0 {
        0
    } else {
        occurrences(s.drop_last(), k) + if s.last() == k {
            1nat
        } else {
            0nat
        }
    }
}

/// Visits of `k` once the first `i` steps of the descent along `path` from
/// the tree `old` have each counted a visit of the node they reached.
pub open spec fn visits_at(old: SearchTree, path: Seq<u128>, i: int, k: u128) -> nat {
    old.visits_of(k) + occurrences(path.subrange(1, i + 1), k)
}

/// What one selection-and-expansion pass from `root` does to the tree `old`,
/// giving `new`, the leaf `leaf` and the path `path` from `root` to it:
/// - each step out of a node that had children goes to the child that UCB1
///   picks for the counts at that moment;
/// - the pass ends by expanding an unexpanded node into its successor keys
///   and taking one of them as the leaf, or at an unexpanded node without
///   moves, or after `MAX_DEPTH` steps;
/// - every node reached after the root counts one visit, and one in the total;
/// - keys and estimates are kept, a non-empty child list is never replaced,
///   and new keys start with no children and estimate 0.
pub open spec fn traversed(old: SearchTree, new: SearchTree, root: u128, leaf: u128, path: Seq<u128>) -> bool {
    let n = path.len();
    &&& 1 <= n <= MAX_DEPTH + 1
    &&& path[0] == root
    &&& path.last() == leaf
    &&& forall|i: int| 0 <= i < n ==> new.nodes@.contains_key(#[trigger] path[i])
    &&& forall|i: int| 0 <= i < n - 1 ==> new.nodes@[#[trigger] path[i]].0@.contains(path[i + 1])
    &&& forall|i: int|
        0 <= i < n - 1 && old.nodes@[#[trigger] path[i]].0@.len() > 0 ==> exists|idx: int|
            #[trigger] old.nodes@[path[i]].0@[idx] == path[i + 1] && is_selection(
                old.nodes@,
                |k: u128| visits_at(old, path, i, k),
                (old.total + i) as nat,
                old.nodes@[path[i]].0@,
                idx,
            )
    &&& {
        ||| (n >= 2 && old.nodes@[path[n - 2]].0@.len() == 0 && expands_to(path[n - 2], new.nodes@[path[n - 2]].0@)
            && new.nodes@[path[n - 2]].0@.contains(leaf))
        ||| (old.nodes@.contains_key(leaf) && old.nodes@[leaf].0@.len() == 0 && expands_to(leaf, Seq::empty()))
        ||| n == MAX_DEPTH + 1
    }
    &&& (playable(root) || old.nodes@[root].0@.len() > 0) ==> n >= 2
    &&& new.total == old.total + n - 1
    &&& forall|k: u128| #[trigger] new.visits_of(k) == old.visits_of(k) + occurrences(path.drop_first(), k)
    &&& forall|k: u128|
        #[trigger] old.nodes@.contains_key(k) ==> {
            &&& new.nodes@.contains_key(k)
            &&& new.nodes@[k].1 == old.nodes@[k].1
            &&& old.nodes@[k].0@.len() > 0 ==> new.nodes@[k] == old.nodes@[k]
        }
    &&& forall|k: u128|
        #[trigger] new.nodes@.contains_key(k) && !old.nodes@.contains_key(k) ==> new.nodes@[k].0@.len() == 0
            && new.nodes@[k].1 == 0
}

proof fn lemma_visits_prefix(old: SearchTree, path: Seq<u128>, x: u128, i: int)
    requires
        0 <= i < path.len(),
    ensures
        (|k: u128| visits_at(old, path.push(x), i, k)) =~= (|k: u128| visits_at(old, path, i, k)),
{
    assert(path.push(x).subrange(1, i + 1) =~= path.subrange(1, i + 1));
}

/// Selection and expansion: from `root`, descends through expanded nodes
/// by `select_child`, counting a visit of each child taken. At an
/// unexpanded node it expands it and takes one of the new children at
/// random as the leaf (counting its visit); a node that has no moves is
/// itself the leaf. Returns the leaf and the path from `root` to it.
pub fn traverse(root: u128, tree: &mut SearchTree, rng: &mut ChaCha8Rng) -> (result: (u128, Vec<u128>))
    requires
        old(tree).wf(),
        old(tree).nodes@.contains_key(root),
        old(tree).total <= u64::MAX - 64,
    ensures
        final(tree).wf(),
        traversed(*old(tree), *final(tree), root, result.0, result.1@),
{
    let ghost start = *tree;
    let mut node = root;
    let mut path: Vec<u128> = Vec::new();
    path.push(root);
    let mut steps: u64 = 0;
    proof {
        assert forall|k: u128| #[trigger] tree.visits_of(k) == start.visits_of(k) + occurrences(path@.drop_first(), k) by {
            assert(path@.drop_first() =~= Seq::<u128>::empty());
        }
    }
    while steps < MAX_DEPTH
        invariant
            tree.wf(),
            start.wf(),
            start == *old(tree),
            tree.nodes@ == start.nodes@,
            start.total <= u64::MAX - 64,
            tree.total == start.total + steps,
            path@.len() == steps + 1,
            steps <= MAX_DEPTH,
            steps == 0 ==> node == root,
            tree.nodes@.contains_key(node),
            path@[0] == root,
            path@.last() == node,
            forall|i: int| 0 <= i < path@.len() ==> tree.nodes@.contains_key(#[trigger] path@[i]),
            forall|i: int| 0 <= i < path@.len() - 1 ==> tree.nodes@[#[trigger] path@[i]].0@.contains(path@[i + 1]),
            forall|i: int|
                0 <= i < path@.len() - 1 && start.nodes@[#[trigger] path@[i]].0@.len() > 0 ==> exists|idx: int|
                    #[trigger] start.nodes@[path@[i]].0@[idx] == path@[i + 1] && is_selection(
                        start.nodes@,
                        |k: u128| visits_at(start, path@, i, k),
                        (start.total + i) as nat,
                        start.nodes@[path@[i]].0@,
                        idx,
                    ),
            forall|k: u128| #[trigger] tree.visits_of(k) == start.visits_of(k) + occurrences(path@.drop_first(), k),
        decreases MAX_DEPTH - steps,
    {
        let children = children_of(tree, node);
        if children.len() == 0 {
            let ghost before = tree.nodes@;
            let ghost pv = *tree;
            let fresh = expand(node, tree);
            proof {
                assert forall|i: int| 0 <= i < path@.len() - 1 implies tree.nodes@[#[trigger] path@[i]] == before[path@[i]] by {
                    assert(before[path@[i]].0@.contains(path@[i + 1]));
                    assert(path@[i] != node);
                }
                assert forall|k: u128| #[trigger] tree.visits_of(k) == start.visits_of(k) + occurrences(path@.drop_first(), k) by {
                    assert(tree.visits_of(k) == pv.visits_of(k));
                }
            }
            if fresh.len() == 0 {
                return (node, path);
            }
            let pick = random_index(rng, fresh.len());
            let leaf = fresh[pick];
            let ghost mid = *tree;
            record_visit(tree, leaf);
            let ghost old_path = path@;
            path.push(leaf);
            proof {
                assert(tree.nodes@[node].0@[pick as int] == leaf);
                assert(path@.drop_first() =~= old_path.drop_first().push(leaf));
                assert forall|k: u128| #[trigger] tree.visits_of(k) == start.visits_of(k) + occurrences(path@.drop_first(), k) by {
                    assert(path@.drop_first().drop_last() =~= old_path.drop_first());
                    if k != leaf {
                        assert(tree.visits_of(k) == mid.visits_of(k));
                    }
                }
                assert forall|i: int| 0 <= i < path@.len() - 1 implies tree.nodes@[#[trigger] path@[i]].0@.contains(
                    path@[i + 1],
                ) by {
                    if i < old_path.len() - 1 {
                        assert(path@[i] == old_path[i] && path@[i + 1] == old_path[i + 1]);
                        assert(old_path[i] != node) by {
                            assert(before[old_path[i]].0@.contains(old_path[i + 1]));
                        }
                    } else {
                        assert(path@[i] == node);
                        assert(path@[i + 1] == leaf);
                    }
                }
                assert forall|i: int|
                    0 <= i < path@.len() - 1 && start.nodes@[#[trigger] path@[i]].0@.len() > 0 implies exists|idx: int|
                    #[trigger] start.nodes@[path@[i]].0@[idx] == path@[i + 1] && is_selection(
                        start.nodes@,
                        |k: u128| visits_at(start, path@, i, k),
                        (start.total + i) as nat,
                        start.nodes@[path@[i]].0@,
                        idx,
                    ) by {
                    if i < old_path.len() - 1 {
                        assert(path@[i] == old_path[i] && path@[i + 1] == old_path[i + 1]);
                        lemma_visits_prefix(start, old_path, leaf, i);
                    } else {
                        assert(path@[i] == node);
                    }
                }
                assert(path@[path@.len() - 2] == node);
            }
            return (leaf, path);
        }
        let index = select_child(&children, tree);
        let best = children[index];
        let ghost pre = *tree;
        record_visit(tree, best);
        let ghost old_path = path@;
        path.push(best);
        proof {
            assert(tree.nodes@[node].0@[index as int] == best);
            assert(path@.drop_first() =~= old_path.drop_first().push(best));
            assert forall|k: u128| #[trigger] tree.visits_of(k) == start.visits_of(k) + occurrences(path@.drop_first(), k) by {
                assert(path@.drop_first().drop_last() =~= old_path.drop_first());
                if k != best {
                    assert(tree.visits_of(k) == pre.visits_of(k));
                }
            }
            assert forall|i: int| 0 <= i < path@.len() - 1 implies tree.nodes@[#[trigger] path@[i]].0@.contains(
                path@[i + 1],
            ) by {
                if i < old_path.len() - 1 {
                    assert(path@[i] == old_path[i] && path@[i + 1] == old_path[i + 1]);
                } else {
                    assert(path@[i] == node);
                }
            }
            let i0 = old_path.len() - 1;
            assert((|k: u128| pre.visits_of(k)) =~= (|k: u128| visits_at(start, path@, i0, k))) by {
                assert(path@.subrange(1, i0 + 1) =~= old_path.drop_first());
            }
            assert forall|i: int|
                0 <= i < path@.len() - 1 && start.nodes@[#[trigger] path@[i]].0@.len() > 0 implies exists|idx: int|
                #[trigger] start.nodes@[path@[i]].0@[idx] == path@[i + 1] && is_selection(
                    start.nodes@,
                    |k: u128| visits_at(start, path@, i, k),
                    (start.total + i) as nat,
                    start.nodes@[path@[i]].0@,
                    idx,
                ) by {
                if i < old_path.len() - 1 {
                    assert(path@[i] == old_path[i] && path@[i + 1] == old_path[i + 1]);
                    lemma_visits_prefix(start, old_path, best, i);
                } else {
                    assert(path@[i] == node);
                    assert(start.nodes@[path@[i]].0@[index as int] == path@[i + 1]);
                }
            }
        }
        node = best;
        steps = steps + 1;
    }
    (node, path)
}

/// A position with a move to search: not terminal, and some column of the
/// standard board has its top cell free.
pub open spec fn playable(key: u128) -> bool {
    &&& !terminal_bit(key, 42)
    &&& exists|c: int| 0 <= c < 7 && !#[trigger] bit(key, 42 + c * 6 + 5)
}

fn is_playable(key: u128) -> (p: bool)
    ensures
        p == playable(key),
{
    if is_terminal_key(key) {
        return false;
    }
    let mut c: u32 = 0;
    while c < 7
        invariant
            !terminal_bit(key, 42),
            c <= 7,
            forall|j: int| 0 <= j < c ==> #[trigger] bit(key, 42 + j * 6 + 5),
        decreases 7 - c,
    {
        let k: u32 = 42 + c * 6 + 5;
        let ghost ci = c as int;
        assert(k as int == 42 + ci * 6 + 5);
        if (key >> (k as u128)) & 1u128 != 1u128 {
            assert(!bit(key, k as int));
            assert(!bit(key, 42 + ci * 6 + 5));
            return true;
        }
        c = c + 1;
    }
    false
}

/// Every estimate of `tree` lies in `-ONE ..= ONE`.
pub open spec fn estimates_within_one(tree: Map<u128, (Vec<u128>, i64)>) -> bool {
    forall|k: u128| #[trigger] tree.contains_key(k) ==> -ONE <= tree[k].1 <= ONE
}

proof fn lemma_backprop_within_one(tree: Map<u128, (Vec<u128>, i64)>, path: Seq<u128>, value: int)
    requires
        estimates_within_one(tree),
        -ONE <= value <= ONE,
        forall|i: int| 0 <= i < path.len() ==> tree.contains_key(#[trigger] path[i]),
    ensures
        estimates_within_one(backprop(tree, path, value)),
    decreases path.len(),
{
    if path.len() > 0 {
        lemma_backprop_within_one(tree, path.drop_last(), value);
        lemma_backprop_keeps_dom(tree, path.drop_last(), value);
        assert(tree.contains_key(path[path.len() - 1]));
    }
}

proof fn lemma_backprop_keeps_dom(tree: Map<u128, (Vec<u128>, i64)>, path: Seq<u128>, value: int)
    requires
        forall|i: int| 0 <= i < path.len() ==> tree.contains_key(#[trigger] path[i]),
    ensures
        backprop(tree, path, value).dom() == tree.dom(),
    decreases path.len(),
{
    if path.len() > 0 {
        lemma_backprop_keeps_dom(tree, path.drop_last(), value);
        let before = backprop(tree, path.drop_last(), value);
        assert(tree.contains_key(path[path.len() - 1]));
        assert(before.insert(path.last(), (before[path.last()].0, halve(before[path.last()].1 + value) as i64)).dom()
            =~= tree.dom());
    }
}

/// One search iteration from `root`: selection and expansion (`traverse`),
/// a random playout from the leaf (`rollout`), and backpropagation of its
/// result along the path. A position without a move to search is left
/// alone, and `false` returned.
pub fn mcts_iteration(root: u128, tree: &mut SearchTree, rng: &mut ChaCha8Rng) -> (ran: bool)
    requires
        old(tree).wf(),
        old(tree).nodes@.contains_key(root),
        old(tree).total <= u64::MAX - 64,
    ensures
        ran == playable(root),
        final(tree).wf(),
        final(tree).nodes@.contains_key(root),
        !ran ==> final(tree).nodes@ == old(tree).nodes@ && final(tree).visits@ == old(tree).visits@
            && final(tree).total == old(tree).total,
        ran ==> exists|mid: SearchTree, path: Seq<u128>, r: int|
            #[trigger] traversed(*old(tree), mid, root, path.last(), path) && #[trigger] rollout_outcome(path.last(), r)
                && final(tree).nodes@ == backprop(mid.nodes@, path, r) && final(tree).visits@ == mid.visits@
                && final(tree).total == mid.total,
        ran ==> final(tree).total >= old(tree).total + 1,
        forall|k: u128|
            #[trigger] old(tree).nodes@.contains_key(k) ==> {
                &&& final(tree).nodes@.contains_key(k)
                &&& old(tree).nodes@[k].0@.len() > 0 ==> final(tree).nodes@[k].0@ == old(tree).nodes@[k].0@
            },
        estimates_within_one(old(tree).nodes@) ==> estimates_within_one(final(tree).nodes@),
{
    if !is_playable(root) {
        return false;
    }
    let (leaf, path) = traverse(root, tree, rng);
    let ghost mid = *tree;
    assert(tree.nodes@.contains_key(path@[path@.len() - 1]));
    let result = rollout(leaf, rng);
    let ghost before = tree.nodes@;
    backpropagate(result, &path, &mut tree.nodes);
    proof {
        lemma_backprop_keeps(before, path@, result as int);
        assert forall|k: u128| #[trigger] tree.nodes@.contains_key(k) implies {
            &&& valid_key(k)
            &&& forall|i: int|
                0 <= i < tree.nodes@[k].0@.len() ==> tree.nodes@.contains_key(#[trigger] tree.nodes@[k].0@[i])
        } by {
            assert(before.contains_key(k));
            assert(tree.nodes@[k].0 == before[k].0);
        }
        assert(tree.nodes@.contains_key(root));
        assert forall|k: u128| #[trigger] old(tree).nodes@.contains_key(k) implies {
            &&& tree.nodes@.contains_key(k)
            &&& old(tree).nodes@[k].0@.len() > 0 ==> tree.nodes@[k].0@ == old(tree).nodes@[k].0@
        } by {
            assert(before.contains_key(k));
            assert(tree.nodes@[k].0 == before[k].0);
        }
        if estimates_within_one(old(tree).nodes@) {
            assert forall|k: u128| #[trigger] before.contains_key(k) implies -ONE <= before[k].1 <= ONE by {
                if old(tree).nodes@.contains_key(k) {
                    assert(before[k].1 == old(tree).nodes@[k].1);
                }
            }
            lemma_backprop_within_one(before, path@, result as int);
        }
        assert(traversed(*old(tree), mid, root, path@.last(), path@));
    }
    true
}

/// Whether a time-bounded search goes on: time is left of the budget, and
/// the visit counter has room for another iteration.
pub fn keep_searching(elapsed_ms: u64, budget_ms: u64, tree: &SearchTree) -> (go: bool)
    ensures
        go == (elapsed_ms < budget_ms && tree.total <= u64::MAX - 64),
{
    elapsed_ms < budget_ms && tree.total <= u64::MAX - 64
}

/// The child of `root` with the highest value estimate (the first of them
/// on a tie), or `None` where `root` has no entry or no children.
pub fn best_child(root: u128, tree: &SearchTree) -> (best: Option<u128>)
    requires
        tree.wf(),
    ensures
        match best {
            None => !tree.nodes@.contains_key(root) || tree.nodes@[root].0@.len() == 0,
            Some(k) => tree.nodes@.contains_key(root) && exists|i: int|
                0 <= i < tree.nodes@[root].0@.len() && #[trigger] tree.nodes@[root].0@[i] == k && (forall|j: int|
                    0 <= j < tree.nodes@[root].0@.len() ==> tree.nodes@[#[trigger] tree.nodes@[root].0@[j]].1
                        <= tree.nodes@[k].1) && (forall|j: int|
                    0 <= j < i ==> tree.nodes@[#[trigger] tree.nodes@[root].0@[j]].1 < tree.nodes@[k].1),
        },
{
    if !tree.nodes.contains_key(&root) {
        return None;
    }
    let children = children_of(tree, root);
    if children.len() == 0 {
        return None;
    }
    let mut best: usize = 0;
    let mut best_value: i64 = 0;
    let mut k: usize = 0;
    while k < children.len()
        invariant
            tree.wf(),
            tree.nodes@.contains_key(root),
            children@ == tree.nodes@[root].0@,
            forall|i: int| 0 <= i < children@.len() ==> tree.nodes@.contains_key(#[trigger] children@[i]),
            k <= children@.len(),
            best < children@.len(),
            k == 0 ==> best == 0,
            k > 0 ==> best < k && best_value == tree.nodes@[children@[best as int]].1,
            forall|j: int| 0 <= j < k ==> tree.nodes@[#[trigger] children@[j]].1 <= tree.nodes@[children@[best as int]].1,
            forall|j: int| 0 <= j < best ==> tree.nodes@[#[trigger] children@[j]].1 < tree.nodes@[children@[best as int]].1,
        decreases children@.len() - k,
    {
        let key = children[k];
        let value = match tree.nodes.get(&key) {
            Some(entry) => entry.1,
            None => 0,
        };
        if k == 0 || value > best_value {
            best = k;
            best_value = value;
        }
        k = k + 1;
    }
    Some(children[best])
}

} // verus!
