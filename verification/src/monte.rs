use crate::board::Board;
use crate::board::Colour;
use crate::board::Move;
use crate::board::lemma_apply_view;
use crate::board::lemma_legal_moves_sound;
use crate::board::lemma_moves_view;
use crate::board::move_is_flanking;
use crate::board::evolves_by_plies;
use crate::board::reachable_by_plies;
use vstd::prelude::*;

verus! {

/// One node of the search tree: a snapshot of a hypothetical future, the move
/// that led to it, the index of the node it came from (None only at the root),
/// and the rollout statistics gathered for it.
pub struct TreeNode {
    pub parent: Option<usize>,
    pub content: Board,
    pub mov: Option<Move>,
    pub wins: u32,
    pub plays: u32,
}

/// Parent links are well formed: the root at index 0 has no parent, and every
/// other node points at an earlier node, so the links form a tree laid out in
/// creation order, and every board snapshot has its 64 cells.
pub open spec fn parents_ok(nodes: Seq<TreeNode>) -> bool {
    &&& nodes.len() >= 1
    &&& nodes[0].parent is None
    &&& (forall|i: int|
        1 <= i < nodes.len() ==> (#[trigger] nodes[i]).parent is Some
            && nodes[i].parent.unwrap() < i)
    &&& (forall|i: int| 0 <= i < nodes.len() ==> (#[trigger] nodes[i]).content@.len() == 64)
}

/// One recorded leaf: a non-root node index that no node has as its parent -
/// leaves sit at the deepest expanded level and are never expanded themselves.
pub open spec fn leaf_ok(nodes: Seq<TreeNode>, leaves: Seq<usize>, l: int) -> bool {
    &&& 1 <= leaves[l] < nodes.len()
    &&& (forall|i: int| 0 <= i < nodes.len() ==> (#[trigger] nodes[i]).parent != Some(leaves[l]))
}

/// The whole arena invariant.
pub open spec fn arena_ok(nodes: Seq<TreeNode>, leaves: Seq<usize>) -> bool {
    &&& parents_ok(nodes)
    &&& (forall|l: int| 0 <= l < leaves.len() ==> #[trigger] leaf_ok(nodes, leaves, l))
}

/// No rollout has been scored yet.
pub open spec fn all_zero(nodes: Seq<TreeNode>) -> bool {
    forall|i: int| 0 <= i < nodes.len() ==> (#[trigger] nodes[i]).plays == 0 && nodes[i].wins == 0
}

/// Node a lies on the parent chain from node l up to the root (or is l itself).
pub open spec fn is_anc(nodes: Seq<TreeNode>, l: int, a: int) -> bool
    decreases (if l <= 0 {
        0int
    } else {
        l
    }),
{
    if l == a {
        true
    } else if 0 < l < nodes.len() {
        match nodes[l].parent {
            Some(p) => p < l && is_anc(nodes, p as int, a),
            None => false,
        }
    } else {
        false
    }
}

/// Chains only lead downward in index: an ancestor has an index no larger
/// than its descendant's.
pub proof fn lemma_anc_le(nodes: Seq<TreeNode>, l: int, a: int)
    requires
        is_anc(nodes, l, a),
    ensures
        a <= l,
    decreases (if l <= 0 {
        0int
    } else {
        l
    }),
{
    if l != a && 0 < l < nodes.len() {
        match nodes[l].parent {
            Some(p) => {
                lemma_anc_le(nodes, p as int, a);
            },
            None => {},
        }
    }
}

/// Every node's chain reaches the root.
pub proof fn lemma_root_anc(nodes: Seq<TreeNode>, l: int)
    requires
        parents_ok(nodes),
        0 <= l < nodes.len(),
    ensures
        is_anc(nodes, l, 0),
    decreases l,
{
    if l > 0 {
        let p = nodes[l].parent.unwrap();
        lemma_root_anc(nodes, p as int);
    }
}

/// Node c records node p as its parent.
pub open spec fn child_of(nodes: Seq<TreeNode>, c: int, p: int) -> bool {
    nodes[c].parent matches Some(q) && q == p
}

/// Node p has at least one child: it is an internal node of the tree.
pub open spec fn has_child(nodes: Seq<TreeNode>, p: int) -> bool {
    exists|c: int| 0 <= c < nodes.len() && #[trigger] child_of(nodes, c, p)
}

/// The number of parent links from node l up to node a (zero when l is a).
pub open spec fn chain_len(nodes: Seq<TreeNode>, l: int, a: int) -> nat
    decreases (if l <= 0 {
        0int
    } else {
        l
    }),
{
    if l == a {
        0
    } else if 0 < l < nodes.len() {
        match nodes[l].parent {
            Some(p) => if p < l {
                1 + chain_len(nodes, p as int, a)
            } else {
                0
            },
            None => 0,
        }
    } else {
        0
    }
}

/// The colour that moves k levels below a node whose mover is team: the sides
/// alternate strictly by depth.
pub open spec fn level_colour(team: Colour, k: nat) -> Colour
    decreases k,
{
    if k == 0 {
        team
    } else {
        level_colour(team.spec_opposite(), (k - 1) as nat)
    }
}

/// Chains and their lengths depend only on the parent links of the nodes below
/// the start, so extending the arena leaves them unchanged.
pub proof fn lemma_chain_same(n1: Seq<TreeNode>, n2: Seq<TreeNode>, l: int, a: int)
    requires
        n1.len() <= n2.len(),
        forall|i: int| 0 <= i < n1.len() ==> (#[trigger] n2[i]).parent == n1[i].parent,
        l < n1.len(),
    ensures
        is_anc(n2, l, a) == is_anc(n1, l, a),
        chain_len(n2, l, a) == chain_len(n1, l, a),
    decreases (if l <= 0 {
        0int
    } else {
        l
    }),
{
    if l != a && 0 < l < n1.len() {
        match n1[l].parent {
            Some(p) => {
                if (p as int) < l {
                    lemma_chain_same(n1, n2, p as int, a);
                }
            },
            None => {},
        }
    }
}

/// One parent link more: a chain from l to m extends over m's parent link to p,
/// and its length grows by exactly one.
pub proof fn lemma_chain_len_extend(nodes: Seq<TreeNode>, l: int, m: int, p: int)
    requires
        parents_ok(nodes),
        is_anc(nodes, l, m),
        0 <= m < nodes.len(),
        child_of(nodes, m, p),
    ensures
        is_anc(nodes, l, p),
        chain_len(nodes, l, p) == chain_len(nodes, l, m) + 1,
    decreases (if l <= 0 {
        0int
    } else {
        l
    }),
{
    lemma_anc_extend(nodes, l, m, p);
    if l == m {
        assert(m >= 1) by {
            if m == 0 {
                assert(nodes[0].parent is None);
            }
        }
        assert(nodes[m].parent.unwrap() < m);
        assert(chain_len(nodes, p, p) == 0);
        assert(l != p) by {
            lemma_anc_le(nodes, p, p);
            assert(nodes[m].parent.unwrap() as int == p);
        }
    } else if 0 < l < nodes.len() {
        match nodes[l].parent {
            Some(q) => {
                assert((q as int) < l);
                lemma_chain_len_extend(nodes, q as int, m, p);
                assert(l != p) by {
                    if l == p {
                        assert(is_anc(nodes, q as int, l));
                        lemma_anc_le(nodes, q as int, l);
                    }
                }
            },
            None => {},
        }
    }
}

/// Entry k of the child list cs: a node of the arena holding the k-th legal
/// move of node p's board for team, the board after that move, and p as its
/// parent.
pub open spec fn child_entry_ok(
    nodes: Seq<TreeNode>,
    p: int,
    team: Colour,
    cs: Seq<int>,
    k: int,
) -> bool {
    let moves = nodes[p].content.all_moves(team);
    let c = cs[k];
    &&& 0 <= c < nodes.len()
    &&& p < c
    &&& (nodes[c].parent matches Some(q) && q == p)
    &&& nodes[c].mov == Some(moves[k])
    &&& nodes[c].content@ == nodes[p].content.spec_apply(moves[k])
}

/// cs lists, in creation order, exactly the children of node p: one per legal
/// move of p's board for team, in move-enumeration order, and no node outside
/// cs has p as its parent.
pub open spec fn children_complete(nodes: Seq<TreeNode>, p: int, team: Colour, cs: Seq<int>) -> bool {
    let moves = nodes[p].content.all_moves(team);
    &&& cs.len() == moves.len()
    &&& (forall|k1: int, k2: int|
        #![trigger cs[k1], cs[k2]]
        0 <= k1 < k2 < cs.len() ==> cs[k1] < cs[k2])
    &&& (forall|k: int| 0 <= k < cs.len() ==> #[trigger] child_entry_ok(nodes, p, team, cs, k))
    &&& (forall|c: int|
        0 <= c < nodes.len() && #[trigger] child_of(nodes, c, p) ==> cs.contains(c))
}

/// Node i sits in the expansion below node p: on a chain to p, between one and
/// depth + 1 links long.
pub open spec fn level_ok(nodes: Seq<TreeNode>, i: int, p: int, depth: int) -> bool {
    &&& is_anc(nodes, i, p)
    &&& 1 <= chain_len(nodes, i, p)
    &&& chain_len(nodes, i, p) <= depth + 1
}

/// Node i of the expansion below p, if above the deepest level, is completely
/// expanded: one child per legal move of its board, for the colour of its
/// level, in enumeration order.
pub open spec fn expanded_ok(
    nodes: Seq<TreeNode>,
    i: int,
    p: int,
    team: Colour,
    depth: int,
) -> bool {
    chain_len(nodes, i, p) < depth + 1 ==> (exists|cs2: Seq<int>|
        #[trigger] children_complete(
            nodes,
            i,
            level_colour(team, chain_len(nodes, i, p)),
            cs2,
        ))
}

/// Node i of the expansion below p is recorded in leaves[lo..] exactly when it
/// sits at the deepest requested level.
pub open spec fn leaf_level_ok(
    nodes: Seq<TreeNode>,
    leaves: Seq<usize>,
    i: int,
    p: int,
    depth: int,
    lo: int,
) -> bool {
    (chain_len(nodes, i, p) == depth + 1) <==> (exists|l: int|
        lo <= l < leaves.len() && (#[trigger] leaves[l]) == i)
}

/// The sum of the plays counters over the direct children of node p among the
/// first n nodes.
pub open spec fn sum_child_plays(nodes: Seq<TreeNode>, p: int, n: int) -> int
    decreases (if n <= 0 {
        0int
    } else {
        n
    }),
{
    if n <= 0 {
        0
    } else {
        sum_child_plays(nodes, p, n - 1) + (if child_of(nodes, n - 1, p) {
            nodes[n - 1].plays as int
        } else {
            0
        })
    }
}

/// Before any rollout, every child-sum is zero.
proof fn lemma_sum_zero(nodes: Seq<TreeNode>, p: int, n: int)
    requires
        all_zero(nodes),
        n <= nodes.len(),
    ensures
        sum_child_plays(nodes, p, n) == 0,
    decreases (if n <= 0 {
        0int
    } else {
        n
    }),
{
    if n > 0 {
        lemma_sum_zero(nodes, p, n - 1);
    }
}

/// The sum of the wins counters over the direct children of node p among the
/// first n nodes.
pub open spec fn sum_child_wins(nodes: Seq<TreeNode>, p: int, n: int) -> int
    decreases (if n <= 0 {
        0int
    } else {
        n
    }),
{
    if n <= 0 {
        0
    } else {
        sum_child_wins(nodes, p, n - 1) + (if child_of(nodes, n - 1, p) {
            nodes[n - 1].wins as int
        } else {
            0
        })
    }
}

/// Before any rollout, every child wins-sum is zero too.
proof fn lemma_sum_wins_zero(nodes: Seq<TreeNode>, p: int, n: int)
    requires
        all_zero(nodes),
        n <= nodes.len(),
    ensures
        sum_child_wins(nodes, p, n) == 0,
    decreases (if n <= 0 {
        0int
    } else {
        n
    }),
{
    if n > 0 {
        lemma_sum_wins_zero(nodes, p, n - 1);
    }
}

/// Two nodes on one chain are chain-related themselves.
proof fn lemma_anc_linear(nodes: Seq<TreeNode>, l: int, a: int, b: int)
    requires
        is_anc(nodes, l, a),
        is_anc(nodes, l, b),
    ensures
        is_anc(nodes, a, b) || is_anc(nodes, b, a),
    decreases (if l <= 0 {
        0int
    } else {
        l
    }),
{
    if l != a && l != b {
        match nodes[l].parent {
            Some(q) => {
                if (q as int) < l {
                    lemma_anc_linear(nodes, q as int, a, b);
                }
            },
            None => {},
        }
    }
}

/// Extending a chain over one parent link.
proof fn lemma_anc_extend(nodes: Seq<TreeNode>, l: int, m: int, p: int)
    requires
        parents_ok(nodes),
        is_anc(nodes, l, m),
        0 <= m < nodes.len(),
        child_of(nodes, m, p),
    ensures
        is_anc(nodes, l, p),
    decreases (if l <= 0 {
        0int
    } else {
        l
    }),
{
    if l == m {
        assert(m >= 1) by {
            if m == 0 {
                assert(nodes[0].parent is None);
            }
        }
        assert(nodes[m].parent.unwrap() < m);
        assert(is_anc(nodes, p, p));
        assert(nodes[m].parent.unwrap() as int == p);
        assert(is_anc(nodes, m, p));
    } else if 0 < l < nodes.len() {
        match nodes[l].parent {
            Some(q) => {
                assert((q as int) < l);
                lemma_anc_extend(nodes, q as int, m, p);
                assert(is_anc(nodes, l, p));
            },
            None => {},
        }
    }
}

/// A chain meets the children of one node in at most one place.
proof fn lemma_chain_child_unique(nodes: Seq<TreeNode>, l: int, p: int, c1: int, c2: int)
    requires
        parents_ok(nodes),
        is_anc(nodes, l, c1),
        is_anc(nodes, l, c2),
        0 <= c1 < nodes.len(),
        0 <= c2 < nodes.len(),
        child_of(nodes, c1, p),
        child_of(nodes, c2, p),
    ensures
        c1 == c2,
{
    lemma_anc_linear(nodes, l, c1, c2);
    if c1 != c2 {
        assert(c1 >= 1 && c2 >= 1) by {
            if c1 == 0 || c2 == 0 {
                assert(nodes[0].parent is None);
            }
        }
        if is_anc(nodes, c1, c2) {
            assert(is_anc(nodes, p, c2));
            lemma_anc_le(nodes, p, c2);
            assert(nodes[c2].parent.unwrap() < c2);
            assert(false);
        } else {
            assert(is_anc(nodes, p, c1));
            lemma_anc_le(nodes, p, c1);
            assert(nodes[c1].parent.unwrap() < c1);
            assert(false);
        }
    }
}

/// A chain from l that passes strictly through p meets a child of p.
proof fn lemma_chain_child_exists(nodes: Seq<TreeNode>, l: int, p: int)
    requires
        parents_ok(nodes),
        0 <= l < nodes.len(),
        is_anc(nodes, l, p),
        l != p,
    ensures
        exists|c: int|
            0 <= c < nodes.len() && #[trigger] child_of(nodes, c, p) && is_anc(nodes, l, c),
    decreases l,
{
    assert(l >= 1) by {
        if l == 0 {
            assert(nodes[0].parent is None);
        }
    }
    let q = nodes[l].parent.unwrap() as int;
    if q == p {
        assert(child_of(nodes, l, p) && is_anc(nodes, l, l));
    } else {
        lemma_chain_child_exists(nodes, q, p);
        let c = choose|c: int|
            0 <= c < nodes.len() && #[trigger] child_of(nodes, c, p) && is_anc(nodes, q, c);
        assert(is_anc(nodes, l, c));
        assert(child_of(nodes, c, p) && is_anc(nodes, l, c));
    }
}

/// Raising the plays counter along the chain of leaf l raises the child-sum of
/// node p by one exactly when the chain passes through a child of p.
proof fn lemma_sum_after_chain_incr(n1: Seq<TreeNode>, n2: Seq<TreeNode>, l: int, p: int, n: int)
    requires
        parents_ok(n1),
        n1.len() == n2.len(),
        0 <= l < n1.len(),
        forall|i: int| 0 <= i < n1.len() ==> (#[trigger] n2[i]).parent == n1[i].parent,
        forall|i: int|
            0 <= i < n1.len() ==> (#[trigger] n2[i]).plays as int == n1[i].plays + (if is_anc(
                n1,
                l,
                i,
            ) {
                1int
            } else {
                0int
            }),
        0 <= n <= n1.len(),
    ensures
        sum_child_plays(n2, p, n) == sum_child_plays(n1, p, n) + (if (exists|c: int|
            0 <= c < n && #[trigger] child_of(n1, c, p) && is_anc(n1, l, c)) {
            1int
        } else {
            0int
        }),
    decreases n,
{
    if n > 0 {
        lemma_sum_after_chain_incr(n1, n2, l, p, n - 1);
        let c0 = n - 1;
        assert(child_of(n2, c0, p) == child_of(n1, c0, p));
        if child_of(n1, c0, p) && is_anc(n1, l, c0) {
            assert(exists|c: int|
                0 <= c < n && #[trigger] child_of(n1, c, p) && is_anc(n1, l, c));
            if exists|c: int| 0 <= c < n - 1 && #[trigger] child_of(n1, c, p) && is_anc(n1, l, c) {
                let c = choose|c: int|
                    0 <= c < n - 1 && #[trigger] child_of(n1, c, p) && is_anc(n1, l, c);
                lemma_chain_child_unique(n1, l, p, c, c0);
                assert(false);
            }
        } else {
            assert((exists|c: int|
                0 <= c < n && #[trigger] child_of(n1, c, p) && is_anc(n1, l, c)) == (exists|c: int|
                0 <= c < n - 1 && #[trigger] child_of(n1, c, p) && is_anc(n1, l, c))) by {
                if exists|c: int| 0 <= c < n && #[trigger] child_of(n1, c, p) && is_anc(n1, l, c) {
                    let c = choose|c: int|
                        0 <= c < n && #[trigger] child_of(n1, c, p) && is_anc(n1, l, c);
                    assert(c != c0);
                    assert(0 <= c < n - 1 && child_of(n1, c, p) && is_anc(n1, l, c));
                }
            }
        }
    }
}

/// Whether a finished game on board s is a win from team's point of view:
/// the team's stones outnumber the other's, and a tie counts as a loss.
pub open spec fn spec_terminal_win(s: Seq<Option<crate::board::Colour>>, team: Colour) -> int {
    let dark = crate::board::count_of(s, Some(Colour::Dark));
    let light = crate::board::count_of(s, Some(Colour::Light));
    match team {
        Colour::Dark => if dark > light {
            1int
        } else {
            0int
        },
        Colour::Light => if light > dark {
            1int
        } else {
            0int
        },
    }
}

/// Raising the wins counter by w along the chain of leaf l raises the child
/// wins-sum of node p by w exactly when the chain passes through a child of p.
proof fn lemma_sum_wins_after_chain_incr(
    n1: Seq<TreeNode>,
    n2: Seq<TreeNode>,
    l: int,
    p: int,
    n: int,
    w: int,
)
    requires
        parents_ok(n1),
        n1.len() == n2.len(),
        0 <= l < n1.len(),
        forall|i: int| 0 <= i < n1.len() ==> (#[trigger] n2[i]).parent == n1[i].parent,
        forall|i: int|
            0 <= i < n1.len() ==> (#[trigger] n2[i]).wins as int == n1[i].wins + (if is_anc(
                n1,
                l,
                i,
            ) {
                w
            } else {
                0int
            }),
        0 <= n <= n1.len(),
    ensures
        sum_child_wins(n2, p, n) == sum_child_wins(n1, p, n) + (if (exists|c: int|
            0 <= c < n && #[trigger] child_of(n1, c, p) && is_anc(n1, l, c)) {
            w
        } else {
            0int
        }),
    decreases n,
{
    if n > 0 {
        lemma_sum_wins_after_chain_incr(n1, n2, l, p, n - 1, w);
        let c0 = n - 1;
        assert(child_of(n2, c0, p) == child_of(n1, c0, p));
        if child_of(n1, c0, p) && is_anc(n1, l, c0) {
            assert(exists|c: int|
                0 <= c < n && #[trigger] child_of(n1, c, p) && is_anc(n1, l, c));
            if exists|c: int| 0 <= c < n - 1 && #[trigger] child_of(n1, c, p) && is_anc(n1, l, c) {
                let c = choose|c: int|
                    0 <= c < n - 1 && #[trigger] child_of(n1, c, p) && is_anc(n1, l, c);
                lemma_chain_child_unique(n1, l, p, c, c0);
                assert(false);
            }
        } else {
            assert((exists|c: int|
                0 <= c < n && #[trigger] child_of(n1, c, p) && is_anc(n1, l, c)) == (exists|c: int|
                0 <= c < n - 1 && #[trigger] child_of(n1, c, p) && is_anc(n1, l, c))) by {
                if exists|c: int| 0 <= c < n && #[trigger] child_of(n1, c, p) && is_anc(n1, l, c) {
                    let c = choose|c: int|
                        0 <= c < n && #[trigger] child_of(n1, c, p) && is_anc(n1, l, c);
                    assert(c != c0);
                    assert(0 <= c < n - 1 && child_of(n1, c, p) && is_anc(n1, l, c));
                }
            }
        }
    }
}

/// The wins counters after one backpropagation: raised by w along the chain of
/// leaf l, untouched elsewhere.
pub open spec fn wins_incremented(n1: Seq<TreeNode>, n2: Seq<TreeNode>, l: int, w: int) -> bool {
    forall|i: int|
        0 <= i < n2.len() ==> (#[trigger] n2[i]).wins as int == n1[i].wins + (if is_anc(n1, l, i) {
            w
        } else {
            0int
        })
}

/// The search tree arena: a flat, append-only store of nodes in creation
/// order, and the list of the leaves of the latest build.
pub struct MonteCarloPlayer {
    pub cache: Vec<TreeNode>,
    pub leaves: Vec<usize>,
}

impl MonteCarloPlayer {
    pub open spec fn tree_ok(self) -> bool {
        arena_ok(self.cache@, self.leaves@)
    }

    /// An empty arena, with room reserved up front as a performance hint.
    pub fn new() -> (p: MonteCarloPlayer)
        ensures
            p.cache@.len() == 0,
            p.leaves@.len() == 0,
    {
        let mut cache: Vec<TreeNode> = Vec::new();
        cache.reserve(5000000);
        let mut leaves: Vec<usize> = Vec::new();
        leaves.reserve(1000000);
        MonteCarloPlayer { cache, leaves }
    }

    /// Clear the arena, seed it with a root holding a copy of the given board,
    /// and expand the tree of hypothetical futures below it to the requested
    /// depth, with `team` to move at the root. At depth zero the children of
    /// the root are exactly its legal moves, each recorded as a leaf.
    pub fn build_tree(&mut self, b: &Board, depth: usize, team: Colour)
        requires
            b.wf(),
        ensures
            final(self).tree_ok(),
            all_zero(final(self).cache@),
            final(self).cache@[0].parent is None,
            final(self).cache@[0].mov is None,
            final(self).cache@[0].content@ == b@,
            depth == 0 ==> final(self).cache@.len() == 1 + b.all_moves(team).len(),
            depth == 0 ==> final(self).leaves@.len() == b.all_moves(team).len(),
            depth == 0 ==> forall|k: int|
                0 <= k < b.all_moves(team).len() ==> {
                    let n = #[trigger] final(self).cache@[1 + k];
                    &&& n.parent == Some(0usize)
                    &&& n.mov == Some(b.all_moves(team)[k])
                    &&& n.content@ == b.spec_apply(b.all_moves(team)[k])
                },
            depth == 0 ==> forall|k: int|
                0 <= k < b.all_moves(team).len() ==> #[trigger] final(self).leaves@[k] == 1 + k,
            exists|cs: Seq<int>|
                #[trigger] children_complete(final(self).cache@, 0, team, cs),
            b.all_moves(team).len() == 0 ==> (final(self).cache@.len() == 1
                && final(self).leaves@.len() == 0),
            forall|i: int|
                1 <= i < final(self).cache@.len() ==> (#[trigger] level_ok(
                    final(self).cache@,
                    i,
                    0,
                    depth as int,
                ) && #[trigger] expanded_ok(final(self).cache@, i, 0, team, depth as int)
                    && #[trigger] leaf_level_ok(
                    final(self).cache@,
                    final(self).leaves@,
                    i,
                    0,
                    depth as int,
                    0,
                )),
    {
        self.cache.clear();
        self.leaves.clear();
        let root = TreeNode {
            parent: None,
            content: b.duplicate(),
            plays: 0,
            wins: 0,
            mov: None,
        };
        let ghost root_board = root.content;
        self.cache.push(root);
        proof {
            lemma_moves_view(root_board, *b, team);
            lemma_legal_moves_sound(*b, team);
            assert forall|m: Move| move_is_flanking(*b, team, m) implies #[trigger] root_board.spec_apply(m) == b.spec_apply(m) by {
                lemma_apply_view(*b, root_board, m);
            }
            assert forall|k: int|
                0 <= k < b.all_moves(team).len() implies #[trigger] root_board.spec_apply(
                root_board.all_moves(team)[k],
            ) == b.spec_apply(b.all_moves(team)[k]) by {
                assert(move_is_flanking(*b, team, b.all_moves(team)[k]));
            }
        }
        self.attach_to_tree(0, depth, team);
        proof {
            if depth == 0 {
                assert forall|k: int|
                    0 <= k < b.all_moves(team).len() implies #[trigger] self.leaves@[k] == 1
                    + k by {
                    assert(self.leaves@[0 + k] == 1 + k);
                }
            }
        }
    }

    /// Expand below the node at `parent_index`: for each legal move of `team`
    /// on that node's board, append a child holding the board after that move.
    /// At remaining depth zero the children are recorded as leaves; above it,
    /// each child is expanded in turn for the opposite colour. A node with no
    /// legal moves gets no children and records no leaf: the dead branch
    /// contributes nothing to the leaf set.
    #[verifier::rlimit(50)]
    pub fn attach_to_tree(&mut self, parent_index: usize, depth: usize, team: Colour)
        requires
            old(self).tree_ok(),
            all_zero(old(self).cache@),
            parent_index < old(self).cache@.len(),
            forall|l: int|
                0 <= l < old(self).leaves@.len() ==> #[trigger] old(self).leaves@[l]
                    != parent_index,
            forall|i: int|
                0 <= i < old(self).cache@.len() ==> (#[trigger] old(self).cache@[i]).parent
                    != Some(parent_index),
        ensures
            final(self).tree_ok(),
            all_zero(final(self).cache@),
            final(self).cache@.len() >= old(self).cache@.len(),
            forall|i: int|
                0 <= i < old(self).cache@.len() ==> #[trigger] final(self).cache@[i] == old(
                    self,
                ).cache@[i],
            final(self).leaves@.len() >= old(self).leaves@.len(),
            forall|l: int|
                0 <= l < old(self).leaves@.len() ==> #[trigger] final(self).leaves@[l] == old(
                    self,
                ).leaves@[l],
            forall|l: int|
                old(self).leaves@.len() <= l < final(self).leaves@.len() ==> old(
                    self,
                ).cache@.len() <= #[trigger] final(self).leaves@[l] < final(self).cache@.len(),
            forall|l: int|
                0 <= l < final(self).leaves@.len() ==> #[trigger] final(self).leaves@[l]
                    != parent_index,
            old(self).cache@[parent_index as int].content.all_moves(team).len() == 0
                ==> (final(self).cache@ == old(self).cache@ && final(self).leaves@ == old(
                self,
            ).leaves@),
            forall|i: int|
                old(self).cache@.len() <= i < final(self).cache@.len() ==> ((
                #[trigger] final(self).cache@[i]).parent == Some(parent_index)
                    || final(self).cache@[i].parent.unwrap() >= old(self).cache@.len()),
            exists|cs: Seq<int>|
                #[trigger] children_complete(final(self).cache@, parent_index as int, team, cs)
                    && (forall|k: int|
                    0 <= k < cs.len() ==> old(self).cache@.len() <= #[trigger] cs[k]),
            forall|i: int|
                old(self).cache@.len() <= i < final(self).cache@.len() ==> #[trigger] level_ok(
                    final(self).cache@,
                    i,
                    parent_index as int,
                    depth as int,
                ),
            forall|i: int|
                old(self).cache@.len() <= i < final(self).cache@.len() ==> #[trigger] expanded_ok(
                    final(self).cache@,
                    i,
                    parent_index as int,
                    team,
                    depth as int,
                ),
            forall|i: int|
                old(self).cache@.len() <= i < final(self).cache@.len()
                    ==> #[trigger] leaf_level_ok(
                    final(self).cache@,
                    final(self).leaves@,
                    i,
                    parent_index as int,
                    depth as int,
                    old(self).leaves@.len() as int,
                ),
            depth == 0 ==> final(self).cache@.len() == old(self).cache@.len() + old(
                self,
            ).cache@[parent_index as int].content.all_moves(team).len(),
            depth == 0 ==> final(self).leaves@.len() == old(self).leaves@.len() + old(
                self,
            ).cache@[parent_index as int].content.all_moves(team).len(),
            depth == 0 ==> forall|k: int|
                0 <= k < old(self).cache@[parent_index as int].content.all_moves(team).len() ==> {
                    let n = #[trigger] final(self).cache@[old(self).cache@.len() + k];
                    let m = old(self).cache@[parent_index as int].content.all_moves(team)[k];
                    &&& n.parent == Some(parent_index)
                    &&& n.mov == Some(m)
                    &&& n.content@ == old(self).cache@[parent_index as int].content.spec_apply(m)
                },
            depth == 0 ==> forall|k: int|
                0 <= k < old(self).cache@[parent_index as int].content.all_moves(team).len()
                    ==> #[trigger] final(self).leaves@[old(self).leaves@.len() + k] == old(
                    self,
                ).cache@.len() + k,
        decreases depth,
    {
        let ghost root_b = old(self).cache@[parent_index as int].content;
        let moves = self.cache[parent_index].content.get_moves(team);
        proof {
            lemma_legal_moves_sound(root_b, team);
        }
        let mut mi: usize = 0;
        if depth == 0 {
            while mi < moves.len()
                invariant
                    arena_ok(self.cache@, self.leaves@),
                    all_zero(self.cache@),
                    old(self).tree_ok(),
                    parent_index < old(self).cache@.len(),
                    root_b == old(self).cache@[parent_index as int].content,
                    moves@ == root_b.all_moves(team),
                    forall|k: int|
                        0 <= k < moves@.len() ==> move_is_flanking(
                            root_b,
                            team,
                            #[trigger] root_b.all_moves(team)[k],
                        ),
                    mi <= moves@.len(),
                    self.cache@.len() == old(self).cache@.len() + mi,
                    self.leaves@.len() == old(self).leaves@.len() + mi,
                    forall|i: int|
                        0 <= i < old(self).cache@.len() ==> #[trigger] self.cache@[i] == old(
                            self,
                        ).cache@[i],
                    forall|l: int|
                        0 <= l < old(self).leaves@.len() ==> #[trigger] self.leaves@[l] == old(
                            self,
                        ).leaves@[l],
                    forall|k: int|
                        0 <= k < mi ==> {
                            let n = #[trigger] self.cache@[old(self).cache@.len() + k];
                            &&& n.parent == Some(parent_index)
                            &&& n.mov == Some(moves@[k])
                            &&& n.content@ == root_b.spec_apply(moves@[k])
                        },
                    forall|k: int|
                        0 <= k < mi ==> #[trigger] self.leaves@[old(self).leaves@.len() + k] == old(
                            self,
                        ).cache@.len() + k,
                    forall|l: int|
                        0 <= l < self.leaves@.len() ==> #[trigger] self.leaves@[l] != parent_index,
                    forall|l: int|
                        old(self).leaves@.len() <= l < self.leaves@.len() ==> old(
                            self,
                        ).cache@.len() <= #[trigger] self.leaves@[l] < self.cache@.len(),
                decreases moves@.len() - mi,
            {
                let m = moves[mi];
                let mut nb = self.cache[parent_index].content.duplicate();
                proof {
                    assert(move_is_flanking(root_b, team, root_b.all_moves(team)[mi as int]));
                    lemma_apply_view(root_b, nb, m);
                }
                nb.apply_move(m);
                let node = TreeNode {
                    parent: Some(parent_index),
                    content: nb,
                    mov: Some(m),
                    wins: 0,
                    plays: 0,
                };
                let ghost nodes0 = self.cache@;
                let ghost lvs0 = self.leaves@;
                self.cache.push(node);
                let li = self.cache.len() - 1;
                self.leaves.push(li);
                proof {
                    assert forall|i: int|
                        1 <= i < self.cache@.len() implies (#[trigger] self.cache@[i]).parent
                        is Some && self.cache@[i].parent.unwrap() < i by {
                        if i < nodes0.len() {
                            assert(self.cache@[i] == nodes0[i]);
                        }
                    }
                    assert forall|i: int|
                        0 <= i < self.cache@.len() implies (#[trigger] self.cache@[i]).content@.len()
                        == 64 by {
                        if i < nodes0.len() {
                            assert(self.cache@[i] == nodes0[i]);
                        }
                    }
                    assert forall|i: int|
                        0 <= i < self.cache@.len() implies (#[trigger] self.cache@[i]).plays == 0
                        && self.cache@[i].wins == 0 by {
                        if i < nodes0.len() {
                            assert(self.cache@[i] == nodes0[i]);
                        }
                    }
                    assert(parents_ok(self.cache@));
                    assert forall|l: int|
                        0 <= l < self.leaves@.len() implies #[trigger] leaf_ok(
                        self.cache@,
                        self.leaves@,
                        l,
                    ) by {
                        if l < lvs0.len() {
                            assert(leaf_ok(nodes0, lvs0, l));
                            assert(self.leaves@[l] == lvs0[l]);
                            assert forall|i: int|
                                0 <= i < self.cache@.len() implies (#[trigger] self.cache@[i]).parent
                                != Some(lvs0[l]) by {
                                if i < nodes0.len() {
                                    assert(self.cache@[i] == nodes0[i]);
                                } else {
                                    assert(self.cache@[i].parent == Some(parent_index));
                                    assert(lvs0[l] != parent_index);
                                }
                            }
                        } else {
                            assert(self.leaves@[l] == li);
                            assert forall|i: int|
                                0 <= i < self.cache@.len() implies (#[trigger] self.cache@[i]).parent
                                != Some(li) by {
                                if i < nodes0.len() {
                                    assert(self.cache@[i] == nodes0[i]);
                                    if i >= 1 {
                                        assert(nodes0[i].parent.unwrap() < i);
                                    }
                                } else {
                                    assert(self.cache@[i].parent == Some(parent_index));
                                }
                            }
                        }
                    }
                    assert(arena_ok(self.cache@, self.leaves@));
                }
                mi = mi + 1;
            }
            proof {
                if moves@.len() == 0 {
                    assert(self.cache@ =~= old(self).cache@);
                    assert(self.leaves@ =~= old(self).leaves@);
                }
                assert forall|i: int|
                    old(self).cache@.len() <= i < self.cache@.len() implies ((#[trigger] self.cache@[i]).parent
                    == Some(parent_index) || self.cache@[i].parent.unwrap() >= old(
                    self,
                ).cache@.len()) by {
                    let k = i - old(self).cache@.len();
                    assert(self.cache@[old(self).cache@.len() + k].parent == Some(parent_index));
                }
                let cs = Seq::new(moves@.len() as nat, |k: int| old(self).cache@.len() + k);
                assert forall|k: int|
                    0 <= k < cs.len() implies #[trigger] child_entry_ok(
                    self.cache@,
                    parent_index as int,
                    team,
                    cs,
                    k,
                ) by {
                    assert(self.cache@[old(self).cache@.len() + k].parent == Some(parent_index));
                    assert(self.cache@[old(self).cache@.len() + k].mov == Some(moves@[k]));
                    assert(self.cache@[parent_index as int] == old(self).cache@[parent_index as int]);
                }
                assert forall|c: int|
                    0 <= c < self.cache@.len() && #[trigger] child_of(
                    self.cache@,
                    c,
                    parent_index as int,
                ) implies cs.contains(c) by {
                    if c < old(self).cache@.len() {
                        assert(self.cache@[c] == old(self).cache@[c]);
                        assert(old(self).cache@[c].parent != Some(parent_index));
                    } else {
                        assert(cs[c - old(self).cache@.len()] == c);
                    }
                }
                assert(children_complete(self.cache@, parent_index as int, team, cs));
                assert(forall|k: int| 0 <= k < cs.len() ==> old(self).cache@.len() <= #[trigger] cs[k]);
                assert forall|i: int|
                    #![trigger level_ok(self.cache@, i, parent_index as int, depth as int)]
                    #![trigger expanded_ok(self.cache@, i, parent_index as int, team, depth as int)]
                    #![trigger leaf_level_ok(self.cache@, self.leaves@, i, parent_index as int, depth as int, old(self).leaves@.len() as int)]
                    old(self).cache@.len() <= i < self.cache@.len() implies (level_ok(
                    self.cache@,
                    i,
                    parent_index as int,
                    depth as int,
                ) && expanded_ok(self.cache@, i, parent_index as int, team, depth as int)
                    && leaf_level_ok(
                    self.cache@,
                    self.leaves@,
                    i,
                    parent_index as int,
                    depth as int,
                    old(self).leaves@.len() as int,
                )) by {
                    let k = i - old(self).cache@.len();
                    assert(self.cache@[old(self).cache@.len() + k].parent == Some(parent_index));
                    assert(is_anc(self.cache@, parent_index as int, parent_index as int));
                    assert(chain_len(self.cache@, parent_index as int, parent_index as int) == 0);
                    assert(chain_len(self.cache@, i, parent_index as int) == 1);
                    assert(self.leaves@[old(self).leaves@.len() + k] == old(self).cache@.len() + k);
                }
            }
        } else {
            let ghost mut cs: Seq<int> = Seq::empty();
            while mi < moves.len()
                invariant
                    arena_ok(self.cache@, self.leaves@),
                    all_zero(self.cache@),
                    old(self).tree_ok(),
                    parent_index < old(self).cache@.len(),
                    root_b == old(self).cache@[parent_index as int].content,
                    moves@ == root_b.all_moves(team),
                    forall|k: int|
                        0 <= k < moves@.len() ==> move_is_flanking(
                            root_b,
                            team,
                            #[trigger] root_b.all_moves(team)[k],
                        ),
                    mi <= moves@.len(),
                    depth >= 1,
                    self.cache@.len() >= old(self).cache@.len(),
                    self.leaves@.len() >= old(self).leaves@.len(),
                    forall|i: int|
                        0 <= i < old(self).cache@.len() ==> #[trigger] self.cache@[i] == old(
                            self,
                        ).cache@[i],
                    forall|l: int|
                        0 <= l < old(self).leaves@.len() ==> #[trigger] self.leaves@[l] == old(
                            self,
                        ).leaves@[l],
                    forall|l: int|
                        old(self).leaves@.len() <= l < self.leaves@.len() ==> old(
                            self,
                        ).cache@.len() <= #[trigger] self.leaves@[l] < self.cache@.len(),
                    forall|l: int|
                        0 <= l < self.leaves@.len() ==> #[trigger] self.leaves@[l] != parent_index,
                    moves@.len() == 0 ==> (self.cache@ == old(self).cache@ && self.leaves@ == old(
                        self,
                    ).leaves@),
                    cs.len() == mi,
                    forall|k1: int, k2: int|
                        #![trigger cs[k1], cs[k2]]
                        0 <= k1 < k2 < cs.len() ==> cs[k1] < cs[k2],
                    forall|k: int|
                        0 <= k < cs.len() ==> #[trigger] child_entry_ok(
                            self.cache@,
                            parent_index as int,
                            team,
                            cs,
                            k,
                        ),
                    forall|k: int|
                        0 <= k < cs.len() ==> old(self).cache@.len() <= #[trigger] cs[k]
                            < self.cache@.len(),
                    forall|c: int|
                        0 <= c < self.cache@.len() && #[trigger] child_of(
                            self.cache@,
                            c,
                            parent_index as int,
                        ) ==> cs.contains(c),
                    forall|i: int|
                        old(self).cache@.len() <= i < self.cache@.len() ==> ((#[trigger] self.cache@[i]).parent
                            == Some(parent_index) || self.cache@[i].parent.unwrap() >= old(
                            self,
                        ).cache@.len()),
                    forall|i: int|
                        old(self).cache@.len() <= i < self.cache@.len() ==> #[trigger] level_ok(
                            self.cache@,
                            i,
                            parent_index as int,
                            depth as int,
                        ),
                    forall|i: int|
                        old(self).cache@.len() <= i < self.cache@.len() ==> #[trigger] expanded_ok(
                            self.cache@,
                            i,
                            parent_index as int,
                            team,
                            depth as int,
                        ),
                    forall|i: int|
                        old(self).cache@.len() <= i < self.cache@.len()
                            ==> #[trigger] leaf_level_ok(
                            self.cache@,
                            self.leaves@,
                            i,
                            parent_index as int,
                            depth as int,
                            old(self).leaves@.len() as int,
                        ),
                decreases moves@.len() - mi,
            {
                let m = moves[mi];
                let ghost nodes0 = self.cache@;
                let mut nb = self.cache[parent_index].content.duplicate();
                proof {
                    assert(move_is_flanking(root_b, team, root_b.all_moves(team)[mi as int]));
                    lemma_apply_view(root_b, nb, m);
                }
                nb.apply_move(m);
                let node = TreeNode {
                    parent: Some(parent_index),
                    content: nb,
                    mov: Some(m),
                    wins: 0,
                    plays: 0,
                };
                let ghost cs0 = cs;
                self.cache.push(node);
                let ind = self.cache.len() - 1;
                proof {
                    assert forall|i: int|
                        1 <= i < self.cache@.len() implies (#[trigger] self.cache@[i]).parent
                        is Some && self.cache@[i].parent.unwrap() < i by {
                        if i < nodes0.len() {
                            assert(self.cache@[i] == nodes0[i]);
                        }
                    }
                    assert forall|i: int|
                        0 <= i < self.cache@.len() implies (#[trigger] self.cache@[i]).content@.len()
                        == 64 by {
                        if i < nodes0.len() {
                            assert(self.cache@[i] == nodes0[i]);
                        }
                    }
                    assert forall|i: int|
                        0 <= i < self.cache@.len() implies (#[trigger] self.cache@[i]).plays == 0
                        && self.cache@[i].wins == 0 by {
                        if i < nodes0.len() {
                            assert(self.cache@[i] == nodes0[i]);
                        }
                    }
                    assert(parents_ok(self.cache@));
                    assert forall|l: int|
                        0 <= l < self.leaves@.len() implies #[trigger] leaf_ok(
                        self.cache@,
                        self.leaves@,
                        l,
                    ) by {
                        assert(leaf_ok(nodes0, self.leaves@, l));
                        assert forall|i: int|
                            0 <= i < self.cache@.len() implies (#[trigger] self.cache@[i]).parent
                            != Some(self.leaves@[l]) by {
                            if i < nodes0.len() {
                                assert(self.cache@[i] == nodes0[i]);
                            } else {
                                assert(self.cache@[i].parent == Some(parent_index));
                                assert(self.leaves@[l] != parent_index);
                            }
                        }
                    }
                    assert(arena_ok(self.cache@, self.leaves@));
                    assert forall|l: int|
                        0 <= l < self.leaves@.len() implies #[trigger] self.leaves@[l] != ind by {
                        assert(leaf_ok(nodes0, self.leaves@, l));
                    }
                    assert forall|i: int|
                        0 <= i < self.cache@.len() implies (#[trigger] self.cache@[i]).parent
                        != Some(ind) by {
                        if i < nodes0.len() {
                            assert(self.cache@[i] == nodes0[i]);
                            if i >= 1 {
                                assert(nodes0[i].parent.unwrap() < i);
                            }
                        } else {
                            assert(self.cache@[i].parent == Some(parent_index));
                        }
                    }
                    cs = cs0.push(ind as int);
                    assert forall|k: int|
                        0 <= k < cs.len() implies #[trigger] child_entry_ok(
                        self.cache@,
                        parent_index as int,
                        team,
                        cs,
                        k,
                    ) by {
                        assert(self.cache@[parent_index as int] == nodes0[parent_index as int]);
                        if k < cs0.len() {
                            assert(cs[k] == cs0[k]);
                            assert(child_entry_ok(nodes0, parent_index as int, team, cs0, k));
                            assert(self.cache@[cs0[k]] == nodes0[cs0[k]]);
                        } else {
                            assert(cs[k] == ind as int);
                            assert(self.cache@[ind as int].mov == Some(moves@[mi as int]));
                            assert(self.cache@[ind as int].content@ == root_b.spec_apply(
                                moves@[mi as int],
                            ));
                        }
                    }
                    assert forall|c: int|
                        0 <= c < self.cache@.len() && #[trigger] child_of(
                        self.cache@,
                        c,
                        parent_index as int,
                    ) implies cs.contains(c) by {
                        if c < nodes0.len() {
                            assert(self.cache@[c] == nodes0[c]);
                            assert(child_of(nodes0, c, parent_index as int));
                            assert(cs0.contains(c));
                            let j = choose|j: int| 0 <= j < cs0.len() && cs0[j] == c;
                            assert(cs[j] == c);
                        } else {
                            assert(cs[cs.len() - 1] == c);
                        }
                    }
                }
                let ghost mid_cache = self.cache@;
                let ghost mid_leaves = self.leaves@;
                self.attach_to_tree(ind, depth - 1, team.opposite());
                proof {
                    assert forall|i: int|
                        0 <= i < old(self).cache@.len() implies #[trigger] self.cache@[i] == old(
                        self,
                    ).cache@[i] by {
                        assert(self.cache@[i] == mid_cache[i]);
                        assert(mid_cache[i] == nodes0[i]);
                    }
                    assert forall|l: int|
                        0 <= l < old(self).leaves@.len() implies #[trigger] self.leaves@[l] == old(
                        self,
                    ).leaves@[l] by {
                        assert(self.leaves@[l] == mid_leaves[l]);
                    }
                    assert forall|l: int|
                        old(self).leaves@.len() <= l < self.leaves@.len() implies old(
                        self,
                    ).cache@.len() <= #[trigger] self.leaves@[l] < self.cache@.len() by {
                        if l < mid_leaves.len() {
                            assert(self.leaves@[l] == mid_leaves[l]);
                        }
                    }
                    assert forall|l: int|
                        0 <= l < self.leaves@.len() implies #[trigger] self.leaves@[l]
                        != parent_index by {
                        if l < mid_leaves.len() {
                            assert(self.leaves@[l] == mid_leaves[l]);
                        } else {
                            assert(self.leaves@[l] >= mid_cache.len());
                        }
                    }
                    assert forall|k: int|
                        0 <= k < cs.len() implies #[trigger] child_entry_ok(
                        self.cache@,
                        parent_index as int,
                        team,
                        cs,
                        k,
                    ) by {
                        assert(child_entry_ok(mid_cache, parent_index as int, team, cs, k));
                        assert(self.cache@[cs[k]] == mid_cache[cs[k]]);
                        assert(self.cache@[parent_index as int] == mid_cache[parent_index as int]);
                    }
                    assert forall|c: int|
                        0 <= c < self.cache@.len() && #[trigger] child_of(
                        self.cache@,
                        c,
                        parent_index as int,
                    ) implies cs.contains(c) by {
                        if c < mid_cache.len() {
                            assert(self.cache@[c] == mid_cache[c]);
                            assert(child_of(mid_cache, c, parent_index as int));
                        } else {
                            assert(self.cache@[c].parent == Some(ind) || self.cache@[c].parent.unwrap()
                                >= mid_cache.len());
                            assert(ind != parent_index);
                        }
                    }
                    assert forall|i: int|
                        old(self).cache@.len() <= i < self.cache@.len() implies ((
                    #[trigger] self.cache@[i]).parent == Some(parent_index)
                        || self.cache@[i].parent.unwrap() >= old(self).cache@.len()) by {
                        if i < mid_cache.len() {
                            assert(self.cache@[i] == mid_cache[i]);
                        } else {
                            assert(self.cache@[i].parent == Some(ind) || self.cache@[i].parent.unwrap()
                                >= mid_cache.len());
                        }
                    }
                    assert forall|i: int|
                        0 <= i < nodes0.len() implies (#[trigger] self.cache@[i]).parent
                        == nodes0[i].parent by {
                        assert(self.cache@[i] == mid_cache[i]);
                        assert(mid_cache[i] == nodes0[i]);
                    }
                    assert forall|c: int|
                        nodes0.len() <= c < self.cache@.len() implies ((#[trigger] self.cache@[c]).parent
                        == Some(parent_index) || self.cache@[c].parent == Some(ind)
                        || self.cache@[c].parent.unwrap() >= nodes0.len() + 1) by {
                        if c == ind as int {
                            assert(self.cache@[c] == mid_cache[c]);
                        } else {
                            assert(self.cache@[c].parent == Some(ind) || self.cache@[c].parent.unwrap()
                                >= mid_cache.len());
                        }
                    }
                    assert(self.cache@[ind as int] == mid_cache[ind as int]);
                    assert(self.cache@[ind as int].parent == Some(parent_index));
                    assert(child_of(self.cache@, ind as int, parent_index as int));
                    assert(is_anc(self.cache@, parent_index as int, parent_index as int));
                    assert(chain_len(self.cache@, parent_index as int, parent_index as int) == 0);
                    assert(is_anc(self.cache@, ind as int, parent_index as int) && chain_len(
                        self.cache@,
                        ind as int,
                        parent_index as int,
                    ) == 1);
                    assert forall|i: int|
                        #![trigger level_ok(self.cache@, i, parent_index as int, depth as int)]
                        #![trigger expanded_ok(self.cache@, i, parent_index as int, team, depth as int)]
                        #![trigger leaf_level_ok(self.cache@, self.leaves@, i, parent_index as int, depth as int, old(self).leaves@.len() as int)]
                        old(self).cache@.len() <= i < self.cache@.len() implies (level_ok(
                        self.cache@,
                        i,
                        parent_index as int,
                        depth as int,
                    ) && expanded_ok(self.cache@, i, parent_index as int, team, depth as int)
                        && leaf_level_ok(
                        self.cache@,
                        self.leaves@,
                        i,
                        parent_index as int,
                        depth as int,
                        old(self).leaves@.len() as int,
                    )) by {
                        reveal_with_fuel(level_colour, 3);
                        if i < nodes0.len() {
                            assert(level_ok(nodes0, i, parent_index as int, depth as int));
                            assert(expanded_ok(nodes0, i, parent_index as int, team, depth as int));
                            assert(leaf_level_ok(
                                nodes0,
                                mid_leaves,
                                i,
                                parent_index as int,
                                depth as int,
                                old(self).leaves@.len() as int,
                            ));
                            lemma_chain_same(nodes0, self.cache@, i, parent_index as int);
                            if chain_len(self.cache@, i, parent_index as int) < depth + 1 {
                                let col = level_colour(
                                    team,
                                    chain_len(nodes0, i, parent_index as int),
                                );
                                let cs2 = choose|cs2: Seq<int>|
                                    #[trigger] children_complete(nodes0, i, col, cs2);
                                assert(children_complete(nodes0, i, col, cs2));
                                assert forall|k: int|
                                    0 <= k < cs2.len() implies #[trigger] child_entry_ok(
                                    self.cache@,
                                    i,
                                    col,
                                    cs2,
                                    k,
                                ) by {
                                    assert(child_entry_ok(nodes0, i, col, cs2, k));
                                    assert(self.cache@[cs2[k]] == nodes0[cs2[k]]);
                                    assert(self.cache@[i] == nodes0[i]);
                                }
                                assert forall|c: int|
                                    0 <= c < self.cache@.len() && #[trigger] child_of(
                                    self.cache@,
                                    c,
                                    i,
                                ) implies cs2.contains(c) by {
                                    if c < nodes0.len() {
                                        assert(self.cache@[c] == nodes0[c]);
                                        assert(child_of(nodes0, c, i));
                                    } else {
                                        assert(parent_index < old(self).cache@.len());
                                        assert(ind as int == nodes0.len());
                                        assert(false);
                                    }
                                }
                                assert(self.cache@[i] == nodes0[i]);
                                assert(children_complete(self.cache@, i, col, cs2));
                            }
                            if chain_len(nodes0, i, parent_index as int) == depth + 1 {
                                let l = choose|l: int|
                                    old(self).leaves@.len() <= l < mid_leaves.len() && (
                                    #[trigger] mid_leaves[l]) == i;
                                assert(self.leaves@[l] == mid_leaves[l]);
                            }
                            if exists|l: int|
                                old(self).leaves@.len() <= l < self.leaves@.len() && (
                                #[trigger] self.leaves@[l]) == i {
                                let l = choose|l: int|
                                    old(self).leaves@.len() <= l < self.leaves@.len() && (
                                    #[trigger] self.leaves@[l]) == i;
                                if l < mid_leaves.len() {
                                    assert(mid_leaves[l] == i);
                                } else {
                                    assert(self.leaves@[l] >= mid_cache.len());
                                    assert(false);
                                }
                            }
                        } else if i == ind as int {
                            assert(chain_len(self.cache@, i, parent_index as int) == 1);
                            assert(level_colour(team, 1) == team.spec_opposite());
                            if exists|l: int|
                                old(self).leaves@.len() <= l < self.leaves@.len() && (
                                #[trigger] self.leaves@[l]) == i {
                                let l = choose|l: int|
                                    old(self).leaves@.len() <= l < self.leaves@.len() && (
                                    #[trigger] self.leaves@[l]) == i;
                                if l < mid_leaves.len() {
                                    assert(mid_leaves[l] != ind);
                                } else {
                                    assert(self.leaves@[l] >= mid_cache.len());
                                }
                                assert(false);
                            }
                        } else {
                            assert(level_ok(self.cache@, i, ind as int, depth - 1));
                            assert(expanded_ok(
                                self.cache@,
                                i,
                                ind as int,
                                team.spec_opposite(),
                                depth - 1,
                            ));
                            assert(leaf_level_ok(
                                self.cache@,
                                self.leaves@,
                                i,
                                ind as int,
                                depth - 1,
                                mid_leaves.len() as int,
                            ));
                            lemma_chain_len_extend(self.cache@, i, ind as int, parent_index as int);
                            assert(level_colour(team, chain_len(self.cache@, i, parent_index as int))
                                == level_colour(
                                team.spec_opposite(),
                                chain_len(self.cache@, i, ind as int),
                            ));
                            if chain_len(self.cache@, i, parent_index as int) == depth + 1 {
                                let l = choose|l: int|
                                    mid_leaves.len() <= l < self.leaves@.len() && (
                                    #[trigger] self.leaves@[l]) == i;
                                assert(old(self).leaves@.len() <= l);
                            }
                            if exists|l: int|
                                old(self).leaves@.len() <= l < self.leaves@.len() && (
                                #[trigger] self.leaves@[l]) == i {
                                let l = choose|l: int|
                                    old(self).leaves@.len() <= l < self.leaves@.len() && (
                                    #[trigger] self.leaves@[l]) == i;
                                if l < mid_leaves.len() {
                                    assert(self.leaves@[l] == mid_leaves[l]);
                                    if l < old(self).leaves@.len() {
                                    } else {
                                        assert(mid_leaves[l] < nodes0.len());
                                    }
                                    assert(false);
                                } else {
                                    assert(chain_len(self.cache@, i, ind as int) == depth);
                                }
                            }
                        }
                    }
                }
                mi = mi + 1;
            }
            proof {
                assert(self.cache@[parent_index as int] == old(self).cache@[parent_index as int]);
                assert(children_complete(self.cache@, parent_index as int, team, cs));
                assert(forall|k: int|
                    0 <= k < cs.len() ==> old(self).cache@.len() <= #[trigger] cs[k]);
            }
        }
    }
}

impl MonteCarloPlayer {
    /// Resolve the node's board by one full random game (a rollout): two
    /// random strategies play it to completion, and the terminal score decides
    /// a win for `team` - dark wins on more dark stones, light on more light
    /// stones, and a tie counts as a loss. The outcome is then backpropagated:
    /// plays rises by one, and wins by the outcome, along the whole chain from
    /// the node up to and including the root; no other node is touched.
    pub fn play_node(&mut self, node: usize, team: Colour)
        requires
            old(self).tree_ok(),
            node < old(self).cache@.len(),
            forall|i: int|
                0 <= i < old(self).cache@.len() ==> (#[trigger] old(self).cache@[i]).plays
                    < u32::MAX && old(self).cache@[i].wins < u32::MAX,
        ensures
            final(self).tree_ok(),
            final(self).cache@.len() == old(self).cache@.len(),
            final(self).leaves@ == old(self).leaves@,
            forall|i: int|
                0 <= i < final(self).cache@.len() ==> (#[trigger] final(self).cache@[i]).parent
                    == old(self).cache@[i].parent && final(self).cache@[i].content@ == old(
                    self,
                ).cache@[i].content@ && final(self).cache@[i].mov == old(self).cache@[i].mov,
            forall|i: int|
                0 <= i < final(self).cache@.len() ==> (#[trigger] final(self).cache@[i]).plays
                    as int == old(self).cache@[i].plays + (if is_anc(
                    old(self).cache@,
                    node as int,
                    i,
                ) {
                    1int
                } else {
                    0int
                }),
            exists|w: int|
                (w == 0 || w == 1) && #[trigger] wins_incremented(
                    old(self).cache@,
                    final(self).cache@,
                    node as int,
                    w,
                ) && ((old(self).cache@[node as int].content.all_moves(Colour::Light).len() == 0
                    && old(self).cache@[node as int].content.all_moves(Colour::Dark).len() == 0)
                    ==> w == spec_terminal_win(old(self).cache@[node as int].content@, team)) && (
                exists|fin: Board|
                    #![trigger fin.wf()]
                    fin.wf() && fin.all_moves(Colour::Light).len() == 0 && fin.all_moves(
                        Colour::Dark,
                    ).len() == 0 && reachable_by_plies(
                        old(self).cache@[node as int].content,
                        fin,
                    ) && w == spec_terminal_win(fin@, team)),
    {
        let position = self.cache[node].content.duplicate();
        let ghost leaf_board = old(self).cache@[node as int].content;
        proof {
            lemma_moves_view(leaf_board, position, Colour::Light);
            lemma_moves_view(leaf_board, position, Colour::Dark);
        }
        let light = crate::player::RandomPlayer {  };
        let dark = crate::player::RandomPlayer {  };
        let mut engine = crate::engine::Engine::new(light, dark, position);
        engine.run_to_end();
        let score = engine.get_board().get_score();
        proof {
            if leaf_board.all_moves(Colour::Light).len() == 0 && leaf_board.all_moves(
                Colour::Dark,
            ).len() == 0 {
                assert(engine.board@ == leaf_board@);
            }
        }
        let has_win = match team {
            Colour::Dark => score.0 > score.1,
            Colour::Light => score.1 > score.0,
        };
        let win: u32 = if has_win {
            1
        } else {
            0
        };
        let mut cursor: usize = node;
        loop
            invariant_except_break
                forall|i: int|
                    0 <= i < self.cache@.len() ==> (#[trigger] self.cache@[i]).plays as int == old(
                        self,
                    ).cache@[i].plays + (if is_anc(old(self).cache@, node as int, i) && !is_anc(
                        old(self).cache@,
                        cursor as int,
                        i,
                    ) {
                        1int
                    } else {
                        0int
                    }),
                forall|i: int|
                    0 <= i < self.cache@.len() ==> (#[trigger] self.cache@[i]).wins as int == old(
                        self,
                    ).cache@[i].wins + (if is_anc(old(self).cache@, node as int, i) && !is_anc(
                        old(self).cache@,
                        cursor as int,
                        i,
                    ) {
                        win as int
                    } else {
                        0int
                    }),
            invariant
                old(self).tree_ok(),
                node < old(self).cache@.len(),
                forall|i: int|
                    0 <= i < old(self).cache@.len() ==> (#[trigger] old(self).cache@[i]).plays
                        < u32::MAX && old(self).cache@[i].wins < u32::MAX,
                win == 0 || win == 1,
                self.cache@.len() == old(self).cache@.len(),
                self.leaves@ == old(self).leaves@,
                cursor < self.cache@.len(),
                is_anc(old(self).cache@, node as int, cursor as int),
                forall|i: int|
                    0 <= i < self.cache@.len() ==> (#[trigger] self.cache@[i]).parent == old(
                        self,
                    ).cache@[i].parent && self.cache@[i].content@ == old(self).cache@[i].content@
                        && self.cache@[i].mov == old(self).cache@[i].mov,
            ensures
                self.cache@.len() == old(self).cache@.len(),
                self.leaves@ == old(self).leaves@,
                forall|i: int|
                    0 <= i < self.cache@.len() ==> (#[trigger] self.cache@[i]).parent == old(
                        self,
                    ).cache@[i].parent && self.cache@[i].content@ == old(self).cache@[i].content@
                        && self.cache@[i].mov == old(self).cache@[i].mov,
                forall|i: int|
                    0 <= i < self.cache@.len() ==> (#[trigger] self.cache@[i]).plays as int == old(
                        self,
                    ).cache@[i].plays + (if is_anc(old(self).cache@, node as int, i) {
                        1int
                    } else {
                        0int
                    }),
                forall|i: int|
                    0 <= i < self.cache@.len() ==> (#[trigger] self.cache@[i]).wins as int == old(
                        self,
                    ).cache@[i].wins + (if is_anc(old(self).cache@, node as int, i) {
                        win as int
                    } else {
                        0int
                    }),
            decreases cursor,
        {
            let parent_c = self.cache[cursor].parent;
            let mov_c = self.cache[cursor].mov;
            let plays_c = self.cache[cursor].plays;
            let wins_c = self.cache[cursor].wins;
            let content_c = self.cache[cursor].content.duplicate();
            proof {
                assert(is_anc(old(self).cache@, cursor as int, cursor as int));
                assert(plays_c == old(self).cache@[cursor as int].plays);
                assert(wins_c == old(self).cache@[cursor as int].wins);
            }
            let node_new = TreeNode {
                parent: parent_c,
                content: content_c,
                mov: mov_c,
                wins: wins_c + win,
                plays: plays_c + 1,
            };
            let ghost prev = self.cache@;
            self.cache.set(cursor, node_new);
            match parent_c {
                Some(p) => {
                    proof {
                        assert(cursor >= 1) by {
                            if cursor == 0 {
                                assert(old(self).cache@[0].parent is None);
                            }
                        }
                        assert((p as int) < cursor as int);
                        lemma_anc_extend(
                            old(self).cache@,
                            node as int,
                            cursor as int,
                            p as int,
                        );
                        assert forall|i: int|
                            0 <= i < self.cache@.len() implies ((is_anc(
                            old(self).cache@,
                            node as int,
                            i,
                        ) && !is_anc(old(self).cache@, cursor as int, i)) || i == cursor as int)
                            == (is_anc(old(self).cache@, node as int, i) && !is_anc(
                            old(self).cache@,
                            p as int,
                            i,
                        )) by {
                            if i == cursor as int {
                                if is_anc(old(self).cache@, p as int, i) {
                                    lemma_anc_le(old(self).cache@, p as int, i);
                                }
                            } else {
                                assert(is_anc(old(self).cache@, cursor as int, i) == is_anc(
                                    old(self).cache@,
                                    p as int,
                                    i,
                                ));
                            }
                        }
                    }
                    cursor = p;
                },
                None => {
                    proof {
                        assert(cursor == 0) by {
                            if cursor >= 1 {
                                assert(old(self).cache@[cursor as int].parent is Some);
                            }
                        }
                        lemma_root_anc(old(self).cache@, node as int);
                        assert forall|i: int|
                            0 <= i < self.cache@.len() implies ((is_anc(
                            old(self).cache@,
                            node as int,
                            i,
                        ) && !is_anc(old(self).cache@, 0, i)) || i == 0) == is_anc(
                            old(self).cache@,
                            node as int,
                            i,
                        ) by {}
                    }
                    break ;
                },
            }
        }
        proof {
            assert forall|l: int|
                0 <= l < self.leaves@.len() implies #[trigger] leaf_ok(
                self.cache@,
                self.leaves@,
                l,
            ) by {
                assert(leaf_ok(old(self).cache@, old(self).leaves@, l));
                assert(self.leaves@[l] == old(self).leaves@[l]);
                assert forall|i: int|
                    0 <= i < self.cache@.len() implies (#[trigger] self.cache@[i]).parent != Some(
                    self.leaves@[l],
                ) by {
                    assert(self.cache@[i].parent == old(self).cache@[i].parent);
                }
            }
            assert(wins_incremented(old(self).cache@, self.cache@, node as int, win as int));
            assert(reachable_by_plies(leaf_board, engine.board)) by {
                let t = choose|t: Seq<Board>|
                    #[trigger] evolves_by_plies(t) && t.len() >= 1 && t[0]@ == position@ && t[t.len()
                        - 1]@ == engine.board@;
                assert(t[0]@ == leaf_board@);
            }
            assert(engine.board.wf() && engine.board.all_moves(Colour::Light).len() == 0
                && engine.board.all_moves(Colour::Dark).len() == 0);
            assert(win as int == spec_terminal_win(engine.board@, team));
        }
    }

    /// Score every recorded leaf of a freshly built tree by one rollout each.
    /// Afterwards the root's plays counter equals the number of leaves, and
    /// every internal node's plays counter equals the sum of the plays
    /// counters of its direct children: each rollout is counted once on every
    /// level of the chain it was propagated along.
    pub fn play_all_leaves(&mut self, team: Colour)
        requires
            old(self).tree_ok(),
            all_zero(old(self).cache@),
            old(self).leaves@.len() < u32::MAX,
        ensures
            final(self).tree_ok(),
            final(self).cache@.len() == old(self).cache@.len(),
            final(self).leaves@ == old(self).leaves@,
            final(self).cache@[0].plays as int == final(self).leaves@.len() as int,
            forall|i: int|
                0 <= i < final(self).cache@.len() ==> (#[trigger] final(self).cache@[i]).wins
                    <= final(self).cache@[i].plays,
            forall|q: int|
                0 <= q < final(self).cache@.len() && has_child(final(self).cache@, q) ==> (
                #[trigger] final(self).cache@[q]).plays as int == sum_child_plays(
                    final(self).cache@,
                    q,
                    final(self).cache@.len() as int,
                ) && final(self).cache@[q].wins as int == sum_child_wins(
                    final(self).cache@,
                    q,
                    final(self).cache@.len() as int,
                ),
    {
        let mut k: usize = 0;
        proof {
            assert forall|q: int|
                0 <= q < self.cache@.len() && has_child(self.cache@, q) implies (
            #[trigger] self.cache@[q]).plays as int == sum_child_plays(
                self.cache@,
                q,
                self.cache@.len() as int,
            ) && self.cache@[q].wins as int == sum_child_wins(
                self.cache@,
                q,
                self.cache@.len() as int,
            ) by {
                lemma_sum_zero(self.cache@, q, self.cache@.len() as int);
                lemma_sum_wins_zero(self.cache@, q, self.cache@.len() as int);
            }
        }
        while k < self.leaves.len()
            invariant
                old(self).tree_ok(),
                all_zero(old(self).cache@),
                old(self).leaves@.len() < u32::MAX,
                self.tree_ok(),
                k <= self.leaves@.len(),
                self.cache@.len() == old(self).cache@.len(),
                self.leaves@ == old(self).leaves@,
                forall|i: int|
                    0 <= i < self.cache@.len() ==> (#[trigger] self.cache@[i]).parent == old(
                        self,
                    ).cache@[i].parent && self.cache@[i].content@ == old(self).cache@[i].content@
                        && self.cache@[i].mov == old(self).cache@[i].mov,
                forall|i: int|
                    0 <= i < self.cache@.len() ==> (#[trigger] self.cache@[i]).plays as int <= k
                        && self.cache@[i].wins <= self.cache@[i].plays,
                self.cache@[0].plays as int == k as int,
                forall|q: int|
                    0 <= q < self.cache@.len() && has_child(self.cache@, q) ==> (
                    #[trigger] self.cache@[q]).plays as int == sum_child_plays(
                        self.cache@,
                        q,
                        self.cache@.len() as int,
                    ) && self.cache@[q].wins as int == sum_child_wins(
                        self.cache@,
                        q,
                        self.cache@.len() as int,
                    ),
            decreases self.leaves@.len() - k,
        {
            let l = self.leaves[k];
            proof {
                assert(leaf_ok(self.cache@, self.leaves@, k as int));
            }
            let ghost pre = self.cache@;
            self.play_node(l, team);
            proof {
                let n = self.cache@.len() as int;
                let w = choose|w: int|
                    (w == 0 || w == 1) && #[trigger] wins_incremented(
                        pre,
                        self.cache@,
                        l as int,
                        w,
                    );
                lemma_root_anc(pre, l as int);
                assert(self.cache@[0].plays as int == k + 1);
                assert forall|q: int|
                    0 <= q < n && has_child(self.cache@, q) implies (
                #[trigger] self.cache@[q]).plays as int == sum_child_plays(self.cache@, q, n) && (
                self.cache@[q]).wins as int == sum_child_wins(self.cache@, q, n) by {
                    let c = choose|c: int| 0 <= c < n && #[trigger] child_of(self.cache@, c, q);
                    assert(child_of(pre, c, q));
                    assert(has_child(pre, q));
                    assert(pre[q].plays as int == sum_child_plays(pre, q, n));
                    assert(pre[q].wins as int == sum_child_wins(pre, q, n));
                    lemma_sum_after_chain_incr(pre, self.cache@, l as int, q, n);
                    lemma_sum_wins_after_chain_incr(pre, self.cache@, l as int, q, n, w);
                    if is_anc(pre, l as int, q) {
                        assert(q != l as int) by {
                            assert(pre[c].parent != Some(self.leaves@[k as int]));
                        }
                        lemma_chain_child_exists(pre, l as int, q);
                    } else {
                        if exists|c2: int|
                            0 <= c2 < n && #[trigger] child_of(pre, c2, q) && is_anc(
                                pre,
                                l as int,
                                c2,
                            ) {
                            let c2 = choose|c2: int|
                                0 <= c2 < n && #[trigger] child_of(pre, c2, q) && is_anc(
                                    pre,
                                    l as int,
                                    c2,
                                );
                            lemma_anc_extend(pre, l as int, c2, q);
                            assert(false);
                        }
                    }
                }
            }
            k = k + 1;
        }
    }
}

impl crate::player::Player for MonteCarloPlayer {
    open spec fn may_decline() -> bool {
        true
    }

    /// The search engine does not itself choose a move from the scored tree:
    /// move selection over the exposed arena is the integrator's extension
    /// point, so as a strategy it always declines.
    fn get_move(&mut self, b: &Board, available: &Vec<Move>) -> (r: Option<Move>)
        ensures
            r is None,
    {
        None
    }
}

} // verus!
