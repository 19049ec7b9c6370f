//! Exhaustive search over an explicit game tree: minimax, negamax, negamax
//! with alpha-beta pruning, and the MTD(f) driver.
//!
//! A node is `(id, value, children)`: `children` lists the ids of its
//! children as decimal numbers separated by commas, and is empty at a leaf.
//! The children of a node are the entries of the tree, in the tree's order,
//! whose id is in that list.
use vstd::prelude::*;
use vstd::utf8::encode_utf8;

verus! {

/// An entry of a game tree: id, stored value, comma-separated child ids.
pub type Node = (u32, i32, String);

/// The bytes of a string.
pub open spec fn text_bytes(s: String) -> Seq<u8> {
    encode_utf8(s@)
}

/// An ASCII decimal digit.
pub open spec fn is_digit(b: u8) -> bool {
    48 <= b <= 57
}

/// Every byte of `s` is a decimal digit.
pub open spec fn all_digits(s: Seq<u8>) -> bool {
    forall|i: int| 0 <= i < s.len() ==> #[trigger] is_digit(s[i])
}

/// The number that the digits `s` spell in base ten.
pub open spec fn digits_value(s: Seq<u8>) -> int
    decreases s.len(),
{
    if s.len() == 0 {
        0
    } else {
        digits_value(s.drop_last()) * 10 + (s.last() - 48)
    }
}

/// One id: a non-empty run of digits whose value fits in a `u32`.
pub open spec fn field(s: Seq<u8>) -> Option<u32> {
    if s.len() > 0 && all_digits(s) && digits_value(s) <= u32::MAX {
        Some(digits_value(s) as u32)
    } else {
        None
    }
}

/// Index of the last comma of `s`, or -1 where there is none.
pub open spec fn last_comma(s: Seq<u8>) -> int
    decreases s.len(),
{
    if s.len() == 0 {
        -1
    } else if s.last() == 44 {
        s.len() - 1
    } else {
        last_comma(s.drop_last())
    }
}

/// The ids that `s` lists, separated by commas, or `None` where a field is
/// not an id.
pub open spec fn parse_ids(s: Seq<u8>) -> Option<Seq<u32>>
    decreases s.len(),
{
    let k = last_comma(s);
    if k < 0 || k >= s.len() {
        match field(s) {
            Some(v) => Some(seq![v]),
            None => None,
        }
    } else {
        match (parse_ids(s.take(k)), field(s.subrange(k + 1, s.len() as int))) {
            (Some(ids), Some(v)) => Some(ids.push(v)),
            _ => None,
        }
    }
}

proof fn lemma_last_comma_none(s: Seq<u8>, m: int)
    requires
        0 <= m <= s.len(),
        forall|i: int| 0 <= i < m ==> s[i] != 44,
    ensures
        last_comma(s.take(m)) == -1,
    decreases m,
{
    if m > 0 {
        assert(s.take(m).drop_last() =~= s.take(m - 1));
        lemma_last_comma_none(s, m - 1);
    }
}

proof fn lemma_last_comma_at(s: Seq<u8>, k: int, m: int)
    requires
        0 <= k < m <= s.len(),
        s[k] == 44,
        forall|i: int| k < i < m ==> s[i] != 44,
    ensures
        last_comma(s.take(m)) == k,
    decreases m,
{
    if m > k + 1 {
        assert(s.take(m).drop_last() =~= s.take(m - 1));
        lemma_last_comma_at(s, k, m - 1);
    }
}

/// Keeps the field state of the scan: `ok` exactly where the field so far is
/// all digits with a value that fits, `cur` that value.
spec fn field_state(seg: Seq<u8>, ok: bool, cur: u64) -> bool {
    &&& ok ==> all_digits(seg) && cur == digits_value(seg) && cur <= u32::MAX
    &&& !ok ==> !all_digits(seg) || digits_value(seg) > u32::MAX
}

/// The ids listed in `string`: decimal numbers separated by commas. `None`
/// where a field is empty, holds a byte that is not a digit, or exceeds
/// `u32::MAX`.
pub fn string_to_idx(string: &String) -> (ids: Option<Vec<u32>>)
    ensures
        match ids {
            Some(v) => parse_ids(text_bytes(*string)) == Some(v@),
            None => parse_ids(text_bytes(*string)) is None,
        },
{
    let bytes = string.as_str().as_bytes();
    let ghost s = bytes@;
    assert(s == text_bytes(*string));
    let mut out: Vec<u32> = Vec::new();
    let mut ok_so_far = true;
    let mut start: usize = 0;
    let mut cur: u64 = 0;
    let mut field_ok = true;
    let mut i: usize = 0;
    while i <= bytes.len()
        invariant
            s == bytes@,
            s == text_bytes(*string),
            start <= i <= s.len(),
            forall|j: int| start <= j < i && j < s.len() ==> s[j] != 44,
            start > 0 ==> s[start - 1] == 44,
            start == 0 ==> ok_so_far && out@.len() == 0,
            start > 0 && ok_so_far ==> parse_ids(s.take(start - 1)) == Some(out@),
            start > 0 && !ok_so_far ==> parse_ids(s.take(start - 1)) is None,
            field_state(s.subrange(start as int, i as int), field_ok, cur),
        decreases s.len() + 1 - i,
    {
        if i == bytes.len() || bytes[i] == 44 {
            let ghost seg = s.subrange(start as int, i as int);
            let ghost prefix = s.take(i as int);
            proof {
                assert(prefix.subrange(start as int, i as int) =~= seg);
                if start == 0 {
                    lemma_last_comma_none(s, i as int);
                } else {
                    lemma_last_comma_at(s, start - 1, i as int);
                    assert(prefix.take(start - 1) =~= s.take(start - 1));
                }
                assert(prefix.subrange(start as int, prefix.len() as int) =~= seg);
                assert(prefix =~= prefix.subrange(0, prefix.len() as int));
                assert(start == 0 ==> prefix =~= seg);
            }
            let this_ok = field_ok && i > start;
            let ghost old_out = out@;
            let ghost old_ok = ok_so_far;
            if this_ok {
                out.push(cur as u32);
            } else {
                ok_so_far = false;
            }
            proof {
                if this_ok {
                    assert(field(seg) == Some(cur as u32));
                } else {
                    assert(field(seg) is None);
                }
                if start == 0 {
                    assert(last_comma(prefix) == -1);
                    assert(field(prefix) == field(seg));
                } else {
                    assert(last_comma(prefix) == start - 1);
                    assert(field(prefix.subrange(start as int, prefix.len() as int)) == field(seg));
                    assert(parse_ids(prefix.take(start - 1)) == parse_ids(s.take(start - 1)));
                }
                assert(ok_so_far ==> parse_ids(prefix) == Some(out@));
                assert(!ok_so_far ==> parse_ids(prefix) is None);
            }
            if i == bytes.len() {
                assert(prefix =~= s);
                if ok_so_far {
                    return Some(out);
                } else {
                    return None;
                }
            }
            start = i + 1;
            cur = 0;
            field_ok = true;
            proof {
                assert(s.subrange(start as int, start as int) =~= Seq::<u8>::empty());
            }
        } else {
            let b = bytes[i];
            let ghost old_seg = s.subrange(start as int, i as int);
            let ghost new_seg = s.subrange(start as int, i + 1);
            proof {
                assert(new_seg.drop_last() =~= old_seg);
            }
            if field_ok && 48 <= b && b <= 57 {
                let next = cur * 10 + (b - 48) as u64;
                if next <= 4294967295 {
                    cur = next;
                } else {
                    field_ok = false;
                }
            } else {
                proof {
                    if !(48 <= b && b <= 57) {
                        assert(!is_digit(new_seg[new_seg.len() - 1]));
                    } else {
                        assert(digits_value(new_seg) == digits_value(old_seg) * 10 + (b - 48));
                        assert(!all_digits(old_seg) ==> !all_digits(new_seg)) by {
                            if !all_digits(old_seg) {
                                let w = choose|w: int| 0 <= w < old_seg.len() && !is_digit(old_seg[w]);
                                assert(new_seg[w] == old_seg[w]);
                            }
                        }
                    }
                }
                field_ok = false;
            }
        }
        i = i + 1;
    }
    None
}

/// The sentinel standing for an unbounded score; real payoffs lie within
/// `-BOUND ..= BOUND`.
pub const BOUND: i32 = 9999;

/// A node without children.
pub open spec fn is_leaf(node: Node) -> bool {
    node.2@.len() == 0
}

/// A leaf, or a node whose child list parses.
pub open spec fn node_wf(node: Node) -> bool {
    is_leaf(node) || parse_ids(text_bytes(node.2)) is Some
}

/// Every entry of `tree` is well formed.
pub open spec fn tree_wf(tree: Seq<Node>) -> bool {
    forall|i: int| 0 <= i < tree.len() ==> #[trigger] node_wf(tree[i])
}

/// The stored values of `node` and of every entry of `tree` lie in `lo ..= hi`.
pub open spec fn values_within(tree: Seq<Node>, node: Node, lo: int, hi: int) -> bool {
    &&& lo <= node.1 <= hi
    &&& forall|i: int| 0 <= i < tree.len() ==> lo <= #[trigger] tree[i].1 <= hi
}

/// The ids that `node` lists (none at a leaf or where the list does not parse).
pub open spec fn child_ids(node: Node) -> Seq<u32> {
    match parse_ids(text_bytes(node.2)) {
        Some(ids) => ids,
        None => Seq::empty(),
    }
}

/// Indices, in order, of the entries among the first `k` of `tree` whose id
/// is in `ids`.
pub open spec fn matching(tree: Seq<Node>, ids: Seq<u32>, k: int) -> Seq<int>
    decreases k,
{
    if k <= 0 {
        Seq::empty()
    } else if ids.contains(tree[k - 1].0) {
        matching(tree, ids, k - 1).push(k - 1)
    } else {
        matching(tree, ids, k - 1)
    }
}

/// Indices of the children of `node` in `tree`.
pub open spec fn children(tree: Seq<Node>, node: Node) -> Seq<int> {
    matching(tree, child_ids(node), tree.len() as int)
}

/// Minimax value of `node` searched `fuel` levels deep: a leaf, or a node
/// reached with no fuel left, scores its stored value; otherwise the best of
/// its children for the side to move (`maximize`), from `-BOUND` or `BOUND`.
pub open spec fn minimax_value(tree: Seq<Node>, node: Node, maximize: bool, fuel: nat) -> int
    decreases fuel, 0nat,
{
    if is_leaf(node) || fuel == 0 {
        node.1 as int
    } else {
        let ch = children(tree, node);
        minimax_fold(tree, ch, maximize, (fuel - 1) as nat, ch.len())
    }
}

/// The best for `maximize` of the minimax values of the first `k` of `ch`.
pub open spec fn minimax_fold(tree: Seq<Node>, ch: Seq<int>, maximize: bool, fuel: nat, k: nat) -> int
    decreases fuel, k,
{
    if k == 0 {
        if maximize {
            -BOUND
        } else {
            BOUND as int
        }
    } else {
        let acc = minimax_fold(tree, ch, maximize, fuel, (k - 1) as nat);
        let v = minimax_value(tree, tree[ch[k - 1]], !maximize, fuel);
        if maximize {
            if v > acc { v } else { acc }
        } else {
            if v < acc { v } else { acc }
        }
    }
}

/// Negamax value of `node` searched `fuel` levels deep, from the point of
/// view of the side to move there.
pub open spec fn negamax_value(tree: Seq<Node>, node: Node, fuel: nat) -> int
    decreases fuel, 0nat,
{
    if is_leaf(node) || fuel == 0 {
        node.1 as int
    } else {
        let ch = children(tree, node);
        negamax_fold(tree, ch, (fuel - 1) as nat, ch.len())
    }
}

/// The largest negated negamax value among the first `k` of `ch`, from `-BOUND`.
pub open spec fn negamax_fold(tree: Seq<Node>, ch: Seq<int>, fuel: nat, k: nat) -> int
    decreases fuel, k,
{
    if k == 0 {
        -BOUND as int
    } else {
        let acc = negamax_fold(tree, ch, fuel, (k - 1) as nat);
        let v = -negamax_value(tree, tree[ch[k - 1]], fuel);
        if v > acc { v } else { acc }
    }
}

/// What a fail-soft search in the window (`alpha`, `beta`) promises of its
/// result `r` against the true value `v`.
pub open spec fn fail_soft(r: int, alpha: int, beta: int, v: int) -> bool {
    &&& r <= alpha ==> v <= r
    &&& alpha < r < beta ==> v == r
    &&& r >= beta ==> v >= r
}

fn contains_id(ids: &Vec<u32>, id: u32) -> (found: bool)
    ensures
        found == ids@.contains(id),
{
    let mut i: usize = 0;
    while i < ids.len()
        invariant
            i <= ids@.len(),
            forall|j: int| 0 <= j < i ==> ids@[j] != id,
        decreases ids@.len() - i,
    {
        if ids[i] == id {
            assert(ids@[i as int] == id);
            return true;
        }
        i = i + 1;
    }
    false
}

/// Indices, in the tree's order, of the entries whose id is in `node_ids`.
pub fn get_nodes_by_id(node_ids: Vec<u32>, tree: &Vec<Node>) -> (nodes: Vec<usize>)
    ensures
        nodes@.len() == matching(tree@, node_ids@, tree@.len() as int).len(),
        forall|k: int|
            0 <= k < nodes@.len() ==> #[trigger] nodes@[k] as int == matching(tree@, node_ids@, tree@.len() as int)[k],
        forall|k: int| 0 <= k < nodes@.len() ==> #[trigger] nodes@[k] < tree@.len(),
{
    let mut nodes: Vec<usize> = Vec::new();
    let mut i: usize = 0;
    while i < tree.len()
        invariant
            i <= tree@.len(),
            nodes@.len() == matching(tree@, node_ids@, i as int).len(),
            forall|k: int|
                0 <= k < nodes@.len() ==> #[trigger] nodes@[k] as int == matching(tree@, node_ids@, i as int)[k],
            forall|k: int| 0 <= k < nodes@.len() ==> #[trigger] nodes@[k] < i,
        decreases tree@.len() - i,
    {
        if contains_id(&node_ids, tree[i].0) {
            nodes.push(i);
        }
        i = i + 1;
    }
    nodes
}

/// Child indices of a node that is not a leaf, from its child list.
fn children_of(node: &Node, tree: &Vec<Node>) -> (nodes: Vec<usize>)
    requires
        node_wf(*node),
        !is_leaf(*node),
    ensures
        nodes@.len() == children(tree@, *node).len(),
        forall|k: int| 0 <= k < nodes@.len() ==> #[trigger] nodes@[k] as int == children(tree@, *node)[k],
        forall|k: int| 0 <= k < nodes@.len() ==> #[trigger] nodes@[k] < tree@.len(),
{
    match string_to_idx(&node.2) {
        Some(ids) => get_nodes_by_id(ids, tree),
        None => Vec::new(),
    }
}

fn minimax_at(node: &Node, tree: &Vec<Node>, maximize: bool, fuel: usize) -> (value: i32)
    requires
        node_wf(*node),
        tree_wf(tree@),
    ensures
        value == minimax_value(tree@, *node, maximize, fuel as nat),
    decreases fuel,
{
    if node.2.as_str().is_empty() || fuel == 0 {
        return node.1;
    }
    let nodes = children_of(node, tree);
    let ghost ch = children(tree@, *node);
    let mut value: i32 = if maximize { -BOUND } else { BOUND };
    let mut k: usize = 0;
    while k < nodes.len()
        invariant
            tree_wf(tree@),
            fuel > 0,
            k <= nodes@.len(),
            nodes@.len() == ch.len(),
            forall|j: int| 0 <= j < nodes@.len() ==> #[trigger] nodes@[j] as int == ch[j],
            forall|j: int| 0 <= j < nodes@.len() ==> #[trigger] nodes@[j] < tree@.len(),
            value == minimax_fold(tree@, ch, maximize, (fuel - 1) as nat, k as nat),
        decreases nodes@.len() - k,
    {
        let child = &tree[nodes[k]];
        let v = minimax_at(child, tree, !maximize, fuel - 1);
        if maximize {
            if v > value {
                value = v;
            }
        } else {
            if v < value {
                value = v;
            }
        }
        k = k + 1;
    }
    value
}

/// Minimax value of `node`: stored values are scores for the maximizing
/// side. The search goes at most as many levels deep as `tree` has entries,
/// which reaches every leaf of a tree without cycles.
pub fn minimax(node: Node, tree: Vec<Node>, maximize: bool) -> (value: i32)
    requires
        node_wf(node),
        tree_wf(tree@),
    ensures
        value == minimax_value(tree@, node, maximize, tree@.len() as nat),
{
    minimax_at(&node, &tree, maximize, tree.len())
}

fn negamax_at(node: &Node, tree: &Vec<Node>, fuel: usize) -> (value: i32)
    requires
        node_wf(*node),
        tree_wf(tree@),
        values_within(tree@, *node, -i32::MAX, i32::MAX as int),
    ensures
        value == negamax_value(tree@, *node, fuel as nat),
        value > i32::MIN,
    decreases fuel,
{
    if node.2.as_str().is_empty() || fuel == 0 {
        return node.1;
    }
    let nodes = children_of(node, tree);
    let ghost ch = children(tree@, *node);
    let mut value: i32 = -BOUND;
    let mut k: usize = 0;
    while k < nodes.len()
        invariant
            tree_wf(tree@),
            values_within(tree@, *node, -i32::MAX, i32::MAX as int),
            fuel > 0,
            k <= nodes@.len(),
            nodes@.len() == ch.len(),
            forall|j: int| 0 <= j < nodes@.len() ==> #[trigger] nodes@[j] as int == ch[j],
            forall|j: int| 0 <= j < nodes@.len() ==> #[trigger] nodes@[j] < tree@.len(),
            value == negamax_fold(tree@, ch, (fuel - 1) as nat, k as nat),
            value >= -BOUND,
        decreases nodes@.len() - k,
    {
        let child = &tree[nodes[k]];
        let v = -negamax_at(child, tree, fuel - 1);
        if v > value {
            value = v;
        }
        k = k + 1;
    }
    value
}

/// Negamax value of `node`: stored values are scores for the side to move
/// at that node. The search goes at most as many levels deep as `tree` has
/// entries.
pub fn negamax(node: Node, tree: Vec<Node>) -> (value: i32)
    requires
        node_wf(node),
        tree_wf(tree@),
        values_within(tree@, node, -i32::MAX, i32::MAX as int),
    ensures
        value == negamax_value(tree@, node, tree@.len() as nat),
{
    negamax_at(&node, &tree, tree.len())
}

proof fn lemma_negamax_fold_grows(tree: Seq<Node>, ch: Seq<int>, fuel: nat, k: nat, m: nat)
    requires
        k <= m,
    ensures
        negamax_fold(tree, ch, fuel, k) <= negamax_fold(tree, ch, fuel, m),
    decreases m,
{
    if k < m {
        lemma_negamax_fold_grows(tree, ch, fuel, k, (m - 1) as nat);
    }
}

/// Negamax values over a tree whose stored values lie in `-BOUND ..= BOUND`
/// lie there too.
pub proof fn lemma_negamax_bounded(tree: Seq<Node>, node: Node, fuel: nat)
    requires
        values_within(tree, node, -BOUND as int, BOUND as int),
    ensures
        -BOUND <= negamax_value(tree, node, fuel) <= BOUND,
    decreases fuel, 0nat,
{
    if !(is_leaf(node) || fuel == 0) {
        let ch = children(tree, node);
        lemma_matching_in_tree(tree, child_ids(node), tree.len() as int);
        lemma_negamax_fold_bounded(tree, ch, (fuel - 1) as nat, ch.len());
    }
}

proof fn lemma_negamax_fold_bounded(tree: Seq<Node>, ch: Seq<int>, fuel: nat, k: nat)
    requires
        k <= ch.len(),
        forall|j: int| 0 <= j < ch.len() ==> 0 <= #[trigger] ch[j] < tree.len(),
        forall|i: int| 0 <= i < tree.len() ==> -BOUND <= #[trigger] tree[i].1 <= BOUND,
    ensures
        -BOUND <= negamax_fold(tree, ch, fuel, k) <= BOUND,
    decreases fuel, k,
{
    if k > 0 {
        lemma_negamax_fold_bounded(tree, ch, fuel, (k - 1) as nat);
        lemma_negamax_bounded(tree, tree[ch[k - 1]], fuel);
    }
}

proof fn lemma_matching_in_tree(tree: Seq<Node>, ids: Seq<u32>, k: int)
    requires
        k <= tree.len(),
    ensures
        forall|j: int| 0 <= j < matching(tree, ids, k).len() ==> 0 <= #[trigger] matching(tree, ids, k)[j] < k,
    decreases k,
{
    if k > 0 {
        lemma_matching_in_tree(tree, ids, k - 1);
        let m = matching(tree, ids, k - 1);
        if ids.contains(tree[k - 1].0) {
            assert forall|j: int| 0 <= j < m.push(k - 1).len() implies 0 <= #[trigger] m.push(k - 1)[j] < k by {
                if j < m.len() {
                    assert(m.push(k - 1)[j] == m[j]);
                }
            }
        }
    }
}

/// Negamax of `node` searched `depth` levels deep with alpha-beta pruning in
/// the window (`alpha`, `beta`): children are searched in the tree's order,
/// and the rest are skipped once the best score reaches `beta`. A node
/// reached with no depth left scores its stored value. The result is exact
/// inside the window and a bound on the true value outside it.
pub fn negamax_alphabeta(node: &Node, tree: &Vec<Node>, alpha: i32, beta: i32, depth: u8) -> (value: i32)
    requires
        node_wf(*node),
        tree_wf(tree@),
        values_within(tree@, *node, -i32::MAX, i32::MAX as int),
        alpha > i32::MIN,
        beta > i32::MIN,
    ensures
        value > i32::MIN,
        depth == 0 || is_leaf(*node) ==> value == node.1,
        alpha < beta ==> fail_soft(value as int, alpha as int, beta as int, negamax_value(tree@, *node, depth as nat)),
        values_within(tree@, *node, -BOUND as int, BOUND as int) ==> -BOUND <= value <= BOUND,
    decreases depth,
{
    if depth == 0 || node.2.as_str().is_empty() {
        return node.1;
    }
    let nodes = children_of(node, tree);
    let ghost ch = children(tree@, *node);
    let ghost d = (depth - 1) as nat;
    proof {
        lemma_matching_in_tree(tree@, child_ids(*node), tree@.len() as int);
    }
    let mut a = alpha;
    let mut value: i32 = -BOUND;
    let mut k: usize = 0;
    while k < nodes.len()
        invariant_except_break
            alpha < beta ==> a < beta,
            negamax_fold(tree@, ch, d, k as nat) <= value,
            value > alpha ==> negamax_fold(tree@, ch, d, k as nat) >= value,
        invariant
            tree_wf(tree@),
            values_within(tree@, *node, -i32::MAX, i32::MAX as int),
            depth > 0,
            d == depth - 1,
            alpha > i32::MIN,
            beta > i32::MIN,
            k <= nodes@.len(),
            nodes@.len() == ch.len(),
            forall|j: int| 0 <= j < nodes@.len() ==> #[trigger] nodes@[j] as int == ch[j],
            forall|j: int| 0 <= j < nodes@.len() ==> #[trigger] nodes@[j] < tree@.len(),
            a == (if k > 0 && value > alpha { value } else { alpha }),
            k == 0 ==> value == -BOUND,
            value >= -BOUND,
            values_within(tree@, *node, -BOUND as int, BOUND as int) ==> value <= BOUND,
        ensures
            alpha < beta ==> fail_soft(value as int, alpha as int, beta as int, negamax_fold(tree@, ch, d, ch.len())),
        decreases nodes@.len() - k,
    {
        let ghost old_value = value;
        let ghost old_k = k as nat;
        let child = &tree[nodes[k]];
        let c = negamax_alphabeta(child, tree, -beta, -a, depth - 1);
        let r = -c;
        let ghost w = negamax_value(tree@, tree@[ch[k as int]], d);
        assert(negamax_fold(tree@, ch, d, (k + 1) as nat) == if -w > negamax_fold(tree@, ch, d, k as nat) {
            -w
        } else {
            negamax_fold(tree@, ch, d, k as nat)
        });
        if r > value {
            value = r;
        }
        if value > a {
            a = value;
        }
        k = k + 1;
        if a >= beta {
            proof {
                if alpha < beta {
                    lemma_negamax_fold_grows(tree@, ch, d, 0, old_k);
                    if value == r {
                        assert(-w >= r);
                    }
                    assert(negamax_fold(tree@, ch, d, k as nat) >= value);
                    lemma_negamax_fold_grows(tree@, ch, d, k as nat, ch.len());
                }
            }
            break;
        }
    }
    value
}

/// MTD(f): from the first guess `guess`, repeats null-window alpha-beta
/// searches, narrowing the bounds on the value of `node` until they meet.
/// Over a tree whose stored values lie in `-BOUND ..= BOUND` it returns the
/// negamax value searched `depth` levels deep, whatever the guess.
pub fn mtd(node: &Node, tree: &Vec<Node>, guess: i32, depth: u8) -> (value: i32)
    requires
        node_wf(*node),
        tree_wf(tree@),
        values_within(tree@, *node, -BOUND as int, BOUND as int),
    ensures
        value == negamax_value(tree@, *node, depth as nat),
{
    let ghost v = negamax_value(tree@, *node, depth as nat);
    proof {
        lemma_negamax_bounded(tree@, *node, depth as nat);
    }
    let mut g = guess;
    let mut upper: i32 = BOUND;
    let mut lower: i32 = -BOUND;
    let mut searched = false;
    while lower < upper
        invariant
            node_wf(*node),
            tree_wf(tree@),
            values_within(tree@, *node, -BOUND as int, BOUND as int),
            v == negamax_value(tree@, *node, depth as nat),
            -BOUND <= lower <= v <= upper <= BOUND,
            !searched ==> lower == -BOUND && upper == BOUND,
            searched ==> (g == lower || g == upper),
        decreases 2 * (upper - lower) + (if lower <= g <= upper { 0int } else { 1int }),
    {
        let beta = if g > lower + 1 { g } else { lower + 1 };
        g = negamax_alphabeta(node, tree, beta - 1, beta, depth);
        if g < beta {
            upper = g;
        } else {
            lower = g;
        }
        searched = true;
    }
    g
}

/// `t` and `t2` list the same ids and child lists, entry by entry; only the
/// stored values may differ.
pub open spec fn same_shape(t: Seq<Node>, t2: Seq<Node>) -> bool {
    &&& t.len() == t2.len()
    &&& forall|i: int| 0 <= i < t.len() ==> #[trigger] t[i].0 == t2[i].0 && t[i].2 == t2[i].2
}

/// Where the search from `node` (in `t`) stops, the value stored in `t2` is
/// the value stored in `t` seen by the side to move: the same on the
/// maximizer's turn, negated on the minimizer's. `t` holds scores for the
/// maximizer, `t2` scores for the mover.
pub open spec fn mover_values(t: Seq<Node>, t2: Seq<Node>, node: Node, node2: Node, maximize: bool, fuel: nat) -> bool
    decreases fuel,
{
    if is_leaf(node) || fuel == 0 {
        node2.1 == if maximize {
            node.1 as int
        } else {
            -node.1
        }
    } else {
        forall|j: int|
            0 <= j < children(t, node).len() ==> mover_values(
                t,
                t2,
                t[#[trigger] children(t, node)[j]],
                t2[children(t, node)[j]],
                !maximize,
                (fuel - 1) as nat,
            )
    }
}

proof fn lemma_matching_same_shape(t: Seq<Node>, t2: Seq<Node>, ids: Seq<u32>, k: int)
    requires
        same_shape(t, t2),
        k <= t.len(),
    ensures
        matching(t, ids, k) == matching(t2, ids, k),
    decreases k,
{
    if k > 0 {
        lemma_matching_same_shape(t, t2, ids, k - 1);
        assert(t[k - 1].0 == t2[k - 1].0);
    }
}

proof fn lemma_minimax_as_negamax(t: Seq<Node>, t2: Seq<Node>, node: Node, node2: Node, maximize: bool, fuel: nat)
    requires
        same_shape(t, t2),
        node.2 == node2.2,
        mover_values(t, t2, node, node2, maximize, fuel),
    ensures
        minimax_value(t, node, maximize, fuel) == if maximize {
            negamax_value(t2, node2, fuel)
        } else {
            -negamax_value(t2, node2, fuel)
        },
    decreases fuel, 0nat,
{
    if !(is_leaf(node) || fuel == 0) {
        let ch = children(t, node);
        lemma_matching_same_shape(t, t2, child_ids(node), t.len() as int);
        assert(children(t2, node2) == ch);
        lemma_matching_in_tree(t, child_ids(node), t.len() as int);
        lemma_minimax_fold_as_negamax(t, t2, ch, maximize, (fuel - 1) as nat, ch.len());
    }
}

proof fn lemma_minimax_fold_as_negamax(
    t: Seq<Node>,
    t2: Seq<Node>,
    ch: Seq<int>,
    maximize: bool,
    fuel: nat,
    k: nat,
)
    requires
        same_shape(t, t2),
        k <= ch.len(),
        forall|j: int| 0 <= j < ch.len() ==> 0 <= #[trigger] ch[j] < t.len(),
        forall|j: int| 0 <= j < ch.len() ==> mover_values(t, t2, t[#[trigger] ch[j]], t2[ch[j]], !maximize, fuel),
    ensures
        minimax_fold(t, ch, maximize, fuel, k) == if maximize {
            negamax_fold(t2, ch, fuel, k)
        } else {
            -negamax_fold(t2, ch, fuel, k)
        },
    decreases fuel, k,
{
    if k > 0 {
        lemma_minimax_fold_as_negamax(t, t2, ch, maximize, fuel, (k - 1) as nat);
        let c = ch[k - 1];
        assert(mover_values(t, t2, t[c], t2[c], !maximize, fuel));
        assert(t[c].0 == t2[c].0);
        assert(t[c].2 == t2[c].2);
        lemma_minimax_as_negamax(t, t2, t[c], t2[c], !maximize, fuel);
    }
}

/// Negamax agrees with minimax started on the maximizing side: `tree`
/// stores scores for the maximizer, `tree2` has the same shape and stores
/// the same scores seen by the side to move (negated wherever the search
/// stops on the minimizer's turn). Where every search stops on the
/// maximizer's turn, `tree2` may be `tree` itself.
pub proof fn lemma_negamax_matches_minimax(node: Node, tree: Seq<Node>, node2: Node, tree2: Seq<Node>)
    requires
        same_shape(tree, tree2),
        node.2 == node2.2,
        mover_values(tree, tree2, node, node2, true, tree.len() as nat),
    ensures
        minimax_value(tree, node, true, tree.len() as nat) == negamax_value(tree2, node2, tree2.len() as nat),
{
    lemma_minimax_as_negamax(tree, tree2, node, node2, true, tree.len() as nat);
}

/// Every path from `node` reaches a leaf within `fuel` levels.
pub open spec fn reaches_leaves(tree: Seq<Node>, node: Node, fuel: nat) -> bool
    decreases fuel,
{
    if is_leaf(node) {
        true
    } else if fuel == 0 {
        false
    } else {
        forall|j: int|
            0 <= j < children(tree, node).len() ==> reaches_leaves(
                tree,
                tree[#[trigger] children(tree, node)[j]],
                (fuel - 1) as nat,
            )
    }
}

proof fn lemma_negamax_more_fuel(tree: Seq<Node>, node: Node, d: nat, e: nat)
    requires
        reaches_leaves(tree, node, d),
        d <= e,
    ensures
        negamax_value(tree, node, e) == negamax_value(tree, node, d),
    decreases d, 0nat,
{
    if !is_leaf(node) {
        let ch = children(tree, node);
        lemma_negamax_fold_more_fuel(tree, ch, (d - 1) as nat, (e - 1) as nat, ch.len());
    }
}

proof fn lemma_negamax_fold_more_fuel(tree: Seq<Node>, ch: Seq<int>, d: nat, e: nat, k: nat)
    requires
        k <= ch.len(),
        d <= e,
        forall|j: int| 0 <= j < ch.len() ==> reaches_leaves(tree, tree[#[trigger] ch[j]], d),
    ensures
        negamax_fold(tree, ch, e, k) == negamax_fold(tree, ch, d, k),
    decreases d, k,
{
    if k > 0 {
        lemma_negamax_fold_more_fuel(tree, ch, d, e, (k - 1) as nat);
        assert(reaches_leaves(tree, tree[ch[k - 1]], d));
        lemma_negamax_more_fuel(tree, tree[ch[k - 1]], d, e);
    }
}

proof fn lemma_full_window(r: int, v: int)
    requires
        -BOUND <= v <= BOUND,
        -BOUND <= r <= BOUND,
        fail_soft(r, -BOUND as int, BOUND as int, v),
    ensures
        r == v,
{
}

/// Alpha-beta in the full window `(-BOUND, BOUND)`, searched as deep as the
/// tree goes, returns the negamax value: `r` is any result that
/// `negamax_alphabeta` may return for those arguments.
pub proof fn lemma_alphabeta_matches_negamax(node: Node, tree: Seq<Node>, depth: u8, r: i32)
    requires
        values_within(tree, node, -BOUND as int, BOUND as int),
        reaches_leaves(tree, node, depth as nat),
        depth <= tree.len(),
        fail_soft(r as int, -BOUND as int, BOUND as int, negamax_value(tree, node, depth as nat)),
        -BOUND <= r <= BOUND,
    ensures
        r == negamax_value(tree, node, tree.len() as nat),
{
    lemma_negamax_bounded(tree, node, depth as nat);
    lemma_full_window(r as int, negamax_value(tree, node, depth as nat));
    lemma_negamax_more_fuel(tree, node, depth as nat, tree.len() as nat);
}

/// MTD(f) and alpha-beta in the full window agree at every depth and for
/// every first guess: `m` is what `mtd` returns and `r` what
/// `negamax_alphabeta` in the window `(-BOUND, BOUND)` may return.
pub proof fn lemma_mtd_matches_alphabeta(node: Node, tree: Seq<Node>, depth: u8, m: i32, r: i32)
    requires
        values_within(tree, node, -BOUND as int, BOUND as int),
        m == negamax_value(tree, node, depth as nat),
        fail_soft(r as int, -BOUND as int, BOUND as int, negamax_value(tree, node, depth as nat)),
        -BOUND <= r <= BOUND,
    ensures
        m == r,
{
    lemma_negamax_bounded(tree, node, depth as nat);
    lemma_full_window(r as int, negamax_value(tree, node, depth as nat));
}

} // verus!
