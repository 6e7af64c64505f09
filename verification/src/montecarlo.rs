//! The Monte Carlo tree search engine: a tree of positions grown over two
//! arenas (one for nodes, one for board snapshots), each addressed by stable
//! integer handles. One search iteration selects a leaf by UCT value,
//! expands it, plays a random game from one of its children, and credits the
//! outcome to every node on the path back to the root.

use vstd::prelude::*;
use crate::board::{
    action_wf, lemma_all_actions_wf, spec_all_actions, spec_avail_actions, spec_execute, Board,
    BoardView,
};
use crate::moves::MoveMemHandler;
use crate::piece::{Action, Color};
use crate::rng::random_below;
use crate::uct::{spec_uct_le, spec_uct_score, uct_ge, uct_score, UctValue};

verus! {

/// Mathematical model of one tree node: its board handle, its statistics,
/// the action that produced it (`None` only for the root), its parent
/// handle, and its children in creation order.
pub struct NodeView {
    pub board: int,
    pub sims: int,
    pub wins: int,
    pub action: Option<Action>,
    pub parent: Option<int>,
    pub children: Seq<int>,
}

/// Per-node search state: a handle into the board-snapshot arena (the board
/// after the action that created this node), visit and win counts, the
/// action taken to reach it, and its links in the tree.
pub struct NodeState {
    board: usize,
    sims: u64,
    wins: u64,
    action_taken: Option<Action>,
    parent: Option<usize>,
    children: Vec<usize>,
}

impl View for NodeState {
    type V = NodeView;

    closed spec fn view(&self) -> NodeView {
        NodeView {
            board: self.board as int,
            sims: self.sims as int,
            wins: self.wins as int,
            action: self.action_taken,
            parent: match self.parent {
                Some(p) => Some(p as int),
                None => None,
            },
            children: Seq::new(self.children@.len(), |j: int| self.children@[j] as int),
        }
    }
}

/// Mathematical model of the search tree: the node arena, the board arena,
/// and the root's handle.
pub struct TreeView {
    pub nodes: Seq<NodeView>,
    pub boards: Seq<BoardView>,
    pub root: int,
}

/// The search tree: owns the node arena and the board-snapshot arena for the
/// duration of one move decision.
pub struct Tree {
    root: usize,
    arena: Vec<NodeState>,
    board_arena: Vec<Board>,
}

impl View for Tree {
    type V = TreeView;

    closed spec fn view(&self) -> TreeView {
        TreeView {
            nodes: Seq::new(self.arena@.len(), |i: int| self.arena@[i]@),
            boards: Seq::new(self.board_arena@.len(), |i: int| self.board_arena@[i]@),
            root: self.root as int,
        }
    }
}

/// Whether node `i`'s producing action is one of the legal actions of its
/// parent's snapshot — what expansion guarantees of every child it creates.
pub open spec fn is_child_action(t: TreeView, i: int) -> bool {
    match t.nodes[i].parent {
        Some(p) => exists|k: int|
            0 <= k < spec_avail_actions(t.boards[t.nodes[p].board]).len() && t.nodes[i].action
                == Some(#[trigger] spec_avail_actions(t.boards[t.nodes[p].board])[k]),
        None => false,
    }
}

/// Well-formedness of node `i`: a valid board handle; win count at most the
/// visit count, which is at most the root's; the root without parent or
/// producing action, every other node with both, its parent earlier in the
/// arena and listing it as a child; children later in the arena (nodes are
/// created after their parents), distinct, and acknowledging this node as
/// their parent.
pub open spec fn node_wf(t: TreeView, i: int) -> bool {
    let n = t.nodes[i];
    &&& 0 <= n.board < t.boards.len()
    &&& 0 <= n.wins <= n.sims <= t.nodes[0].sims
    &&& (i == 0 ==> n.parent is None)
    &&& (i != 0 ==> (n.parent matches Some(p) && 0 <= p < i && t.nodes[p].children.contains(i)
        && n.action is Some && is_child_action(t, i)))
    &&& (forall|j: int|
        0 <= j < n.children.len() ==> i < #[trigger] n.children[j] < t.nodes.len()
            && t.nodes[n.children[j]].parent == Some(i))
    &&& (forall|j1: int, j2: int|
        0 <= j1 < j2 < n.children.len() ==> n.children[j1] != n.children[j2])
}

/// Well-formedness of the whole tree: the root is node 0, the root's visit
/// count is bounded (so that statistics fit their machine words), every node
/// is well formed and every stored board is an 8×8 position.
pub open spec fn tree_wf(t: TreeView) -> bool {
    &&& t.root == 0
    &&& 1 <= t.nodes.len()
    &&& t.nodes[0].sims <= 0xFFFF_FFFF
    &&& (forall|i: int| 0 <= i < t.nodes.len() ==> #[trigger] node_wf(t, i))
    &&& (forall|i: int| 0 <= i < t.boards.len() ==> (#[trigger] t.boards[i]).grid.len() == 64)
}

/// Whether `j` lies on the parent chain from `start` up to the root, both
/// ends included.
pub open spec fn on_path(t: TreeView, start: int, j: int) -> bool
    decreases start,
{
    j == start || (match t.nodes[start].parent {
        Some(p) => 0 <= p < start && on_path(t, p, j),
        None => false,
    })
}

/// The sum of the visit counts of the nodes listed in `ch`.
pub open spec fn sum_sims(nodes: Seq<NodeView>, ch: Seq<int>) -> int
    decreases ch.len(),
{
    if ch.len() == 0 {
        0
    } else {
        sum_sims(nodes, ch.drop_last()) + nodes[ch.last()].sims
    }
}

/// Two trees with the same skeleton: the same nodes, boards, links and
/// actions — only the statistics may differ.
pub open spec fn same_shape(a: TreeView, b: TreeView) -> bool {
    &&& a.root == b.root
    &&& a.nodes.len() == b.nodes.len()
    &&& a.boards == b.boards
    &&& (forall|i: int|
        0 <= i < a.nodes.len() ==> {
            let x = #[trigger] a.nodes[i];
            let y = b.nodes[i];
            x.board == y.board && x.action == y.action && x.parent == y.parent && x.children
                == y.children
        })
}

/// What expanding a childless node `n` creates: one child per legal action
/// of its snapshot (capped at the accumulator's capacity), in list order.
/// Each child is appended to both arenas, carries the action that produced
/// it, snapshots the position after that action, and starts unvisited.
pub open spec fn expanded_children(t0: TreeView, t1: TreeView, n: int) -> bool {
    let b = t0.boards[t0.nodes[n].board];
    let acts = spec_avail_actions(b);
    &&& t1.nodes.len() == t0.nodes.len() + acts.len()
    &&& t1.boards.len() == t0.boards.len() + acts.len()
    &&& t1.nodes[n].children == Seq::new(acts.len(), |k: int| t0.nodes.len() + k)
    &&& forall|k: int|
        0 <= k < acts.len() ==> {
            let c = #[trigger] t1.nodes[t0.nodes.len() + k];
            &&& c.action == Some(acts[k])
            &&& c.board == t0.boards.len() + k
            &&& c.sims == 0
            &&& c.wins == 0
            &&& c.parent == Some(n)
            &&& c.children == Seq::<int>::empty()
            &&& t1.boards[t0.boards.len() + k] == spec_execute(b, acts[k])
        }
}

/// Whether, on the node `i` of `t0`, the playout winner `w` is credited:
/// the side that moved into the node's position is the winner.
pub open spec fn wins_credit(t0: TreeView, i: int, w: Color) -> bool {
    t0.boards[t0.nodes[i].board].last == Some(w)
}

/// The win counts of `t1` are those of `t0`, raised by one exactly on the
/// nodes of the path from `start` whose position's last mover is the
/// winner `w`.
pub open spec fn credited(t0: TreeView, t1: TreeView, start: int, w: Color) -> bool {
    forall|i: int|
        0 <= i < t1.nodes.len() ==> (#[trigger] t1.nodes[i]).wins == t0.nodes[i].wins + (
        if on_path(t0, start, i) && wins_credit(t0, i, w) {
            1int
        } else {
            0int
        })
}

/// Every node on a path lies between the root and the path's start.
proof fn lemma_path_below(t: TreeView, start: int, j: int)
    requires
        on_path(t, start, j),
        start >= 0,
    ensures
        0 <= j <= start,
    decreases start,
{
    if j != start {
        let p = t.nodes[start].parent.unwrap();
        lemma_path_below(t, p, j);
    }
}

/// Paths compose: an ancestor of an ancestor is an ancestor.
proof fn lemma_path_trans(t: TreeView, start: int, mid: int, j: int)
    requires
        start >= 0,
        on_path(t, start, mid),
        on_path(t, mid, j),
    ensures
        on_path(t, start, j),
    decreases start,
{
    if start != mid {
        let p = t.nodes[start].parent.unwrap();
        lemma_path_trans(t, p, mid, j);
    }
}

/// In a well-formed tree the root lies on every path.
proof fn lemma_path_reaches_root(t: TreeView, start: int)
    requires
        tree_wf(t),
        0 <= start < t.nodes.len(),
    ensures
        on_path(t, start, 0),
    decreases start,
{
    if start != 0 {
        assert(node_wf(t, start));
        let p = t.nodes[start].parent.unwrap();
        lemma_path_reaches_root(t, p);
    }
}

/// A tree with the skeleton of a well-formed tree whose statistics were
/// credited along one path, at most once per node, is well formed again.
proof fn lemma_backprop_wf(t0: TreeView, t1: TreeView, start: int)
    requires
        tree_wf(t0),
        0 <= start < t0.nodes.len(),
        t0.nodes[0].sims < 0xFFFF_FFFF,
        same_shape(t0, t1),
        forall|i: int|
            0 <= i < t1.nodes.len() ==> (#[trigger] t1.nodes[i]).sims == t0.nodes[i].sims + (
            if on_path(t0, start, i) {
                1int
            } else {
                0int
            }),
        forall|i: int|
            0 <= i < t1.nodes.len() ==> t0.nodes[i].wins <= (#[trigger] t1.nodes[i]).wins
                <= t0.nodes[i].wins + (if on_path(t0, start, i) {
                1int
            } else {
                0int
            }),
    ensures
        tree_wf(t1),
        t1.nodes[0].sims == t0.nodes[0].sims + 1,
{
    lemma_path_reaches_root(t0, start);
    assert forall|i: int| 0 <= i < t1.nodes.len() implies node_wf(t1, i) by {
        assert(node_wf(t0, i));
        assert(t1.nodes[i].children == t0.nodes[i].children);
        if i != 0 {
            let p = t0.nodes[i].parent.unwrap();
            assert(t1.nodes[p].children == t0.nodes[p].children);
            assert(t1.boards == t0.boards);
            assert(t1.nodes[p].board == t0.nodes[p].board);
            let k = choose|k: int|
                0 <= k < spec_avail_actions(t0.boards[t0.nodes[p].board]).len()
                    && t0.nodes[i].action == Some(
                    #[trigger] spec_avail_actions(t0.boards[t0.nodes[p].board])[k],
                );
            assert(t1.nodes[i].action == Some(
                spec_avail_actions(t1.boards[t1.nodes[p].board])[k],
            ));
            assert(is_child_action(t1, i));
        }
    }
}

impl NodeState {
    /// A fresh root node: `board` is moved into the board arena and the node
    /// holds its handle, with zeroed statistics and no links yet.
    pub fn new(board: Board, board_arena: &mut Vec<Board>) -> (r: NodeState)
        ensures
            final(board_arena)@ == old(board_arena)@.push(board),
            r@.board == old(board_arena)@.len(),
            r@.sims == 0 && r@.wins == 0,
            r@.action is None,
            r@.parent is None,
            r@.children == Seq::<int>::empty(),
    {
        let board_handle = board_arena.len();
        board_arena.push(board);
        let r = NodeState {
            board: board_handle,
            sims: 0,
            wins: 0,
            action_taken: None,
            parent: None,
            children: Vec::new(),
        };
        proof {
            assert(r@.children =~= Seq::<int>::empty());
        }
        r
    }

    /// A child node reached from the position at board handle `board` by
    /// `action`: the position is cloned, the action executed in the clone,
    /// and the result stored as the child's own snapshot. Its parent link is
    /// filled in when the tree inserts it.
    pub fn new_child(board: usize, action: Action, board_arena: &mut Vec<Board>) -> (r: NodeState)
        requires
            board < old(board_arena)@.len(),
            action_wf(old(board_arena)@[board as int]@.grid, action),
        ensures
            final(board_arena)@.len() == old(board_arena)@.len() + 1,
            forall|i: int|
                0 <= i < old(board_arena)@.len() ==> final(board_arena)@[i] == old(
                    board_arena,
                )@[i],
            final(board_arena)@[old(board_arena)@.len() as int]@ == spec_execute(
                old(board_arena)@[board as int]@,
                action,
            ),
            r@.board == old(board_arena)@.len(),
            r@.sims == 0 && r@.wins == 0,
            r@.action == Some(action),
            r@.parent is None,
            r@.children == Seq::<int>::empty(),
    {
        let mut b = board_arena[board].clone();
        b.execute_action(action);
        let handle = board_arena.len();
        board_arena.push(b);
        let r = NodeState {
            board: handle,
            sims: 0,
            wins: 0,
            action_taken: Some(action),
            parent: None,
            children: Vec::new(),
        };
        proof {
            assert(r@.children =~= Seq::<int>::empty());
        }
        r
    }

    /// The node's UCT value given its parent's visit count: infinite for an
    /// unvisited node — such nodes outrank every visited sibling — and the
    /// fixed-point UCT score otherwise.
    pub fn uct_value(&self, parent_sims: u64) -> (r: UctValue)
        requires
            self@.sims <= 0x1_0000_0000,
            self@.wins <= self@.sims,
            parent_sims <= 0x1_0000_0000,
        ensures
            self@.sims == 0 ==> r == UctValue::Infinite,
            self@.sims > 0 ==> r == UctValue::Finite(
                spec_uct_score(self@.wins, self@.sims, parent_sims as int) as u64,
            ) && spec_uct_score(self@.wins, self@.sims, parent_sims as int) >= 0,
    {
        if self.sims == 0 {
            return UctValue::Infinite;
        }
        UctValue::Finite(uct_score(self.wins, self.sims, parent_sims))
    }
}

impl Tree {
    /// A search tree over `board`: the root node snapshots it into the board
    /// arena.
    pub fn new(board: Board) -> (r: Tree)
        ensures
            tree_wf(r@),
            r@.nodes.len() == 1,
            r@.boards.len() == 1,
            r@.boards[0] == board@,
            r@.nodes[0].sims == 0 && r@.nodes[0].wins == 0,
            r@.nodes[0].board == 0,
            r@.nodes[0].action is None,
            r@.nodes[0].parent is None,
            r@.nodes[0].children == Seq::<int>::empty(),
    {
        proof {
            crate::board::lemma_board_view_len(board);
        }
        let mut board_arena: Vec<Board> = Vec::new();
        let root = NodeState::new(board, &mut board_arena);
        let mut arena: Vec<NodeState> = Vec::new();
        arena.push(root);
        let r = Tree { root: 0, arena, board_arena };
        proof {
            assert(node_wf(r@, 0));
        }
        r
    }

    /// Walks from `start` up the parent chain to the root, crediting every
    /// node on the path with one more simulation, and with one more win
    /// exactly where the side that moved into the node's position is the
    /// playout's winner.
    pub(crate) fn back_propagate(&mut self, start: usize, winning: Color)
        requires
            tree_wf(old(self)@),
            (start as int) < old(self)@.nodes.len(),
            old(self)@.nodes[0].sims < 0xFFFF_FFFF,
        ensures
            tree_wf(final(self)@),
            same_shape(old(self)@, final(self)@),
            forall|i: int|
                0 <= i < final(self)@.nodes.len() ==> (#[trigger] final(self)@.nodes[i]).sims
                    == old(self)@.nodes[i].sims + (if on_path(old(self)@, start as int, i) {
                    1int
                } else {
                    0int
                }),
            credited(old(self)@, final(self)@, start as int, winning),
            final(self)@.nodes[0].sims == old(self)@.nodes[0].sims + 1,
    {
        let ghost t0 = self@;
        let mut cur = start;
        loop
            invariant_except_break
                tree_wf(t0),
                (start as int) < t0.nodes.len(),
                t0.nodes[0].sims < 0xFFFF_FFFF,
                (cur as int) < t0.nodes.len(),
                on_path(t0, start as int, cur as int),
                same_shape(t0, self@),
                forall|i: int|
                    0 <= i < t0.nodes.len() ==> (#[trigger] self@.nodes[i]).sims
                        == t0.nodes[i].sims + (if on_path(t0, start as int, i) && !on_path(
                        t0,
                        cur as int,
                        i,
                    ) {
                        1int
                    } else {
                        0int
                    }),
                forall|i: int|
                    0 <= i < t0.nodes.len() ==> (#[trigger] self@.nodes[i]).wins
                        == t0.nodes[i].wins + (if on_path(t0, start as int, i) && !on_path(
                        t0,
                        cur as int,
                        i,
                    ) && wins_credit(t0, i, winning) {
                        1int
                    } else {
                        0int
                    }),
            ensures
                same_shape(t0, self@),
                forall|i: int|
                    0 <= i < t0.nodes.len() ==> (#[trigger] self@.nodes[i]).sims
                        == t0.nodes[i].sims + (if on_path(t0, start as int, i) {
                        1int
                    } else {
                        0int
                    }),
                forall|i: int|
                    0 <= i < t0.nodes.len() ==> (#[trigger] self@.nodes[i]).wins
                        == t0.nodes[i].wins + (if on_path(t0, start as int, i) && wins_credit(
                        t0,
                        i,
                        winning,
                    ) {
                        1int
                    } else {
                        0int
                    }),
            decreases cur,
        {
            proof {
                assert(node_wf(t0, cur as int));
                lemma_path_below(t0, cur as int, cur as int);
            }
            let board_handle = self.arena[cur].board;
            let credit = match self.board_arena[board_handle].get_last_turn() {
                Some(lt) => lt == winning,
                None => false,
            };
            let ghost pre = self@;
            let n = &mut self.arena[cur];
            n.sims = n.sims + 1;
            if credit {
                n.wins = n.wins + 1;
            }
            proof {
                assert(forall|i: int|
                    0 <= i < t0.nodes.len() && i != cur as int ==> #[trigger] self@.nodes[i]
                        == pre.nodes[i]);
                assert(self@.nodes[cur as int].sims == pre.nodes[cur as int].sims + 1);
                assert(self@.nodes[cur as int].children == pre.nodes[cur as int].children);
            }
            let parent = self.arena[cur].parent;
            match parent {
                Some(p) => {
                    proof {
                        assert(t0.nodes[cur as int].parent == Some(p as int));
                        assert(0 <= (p as int) < cur as int);
                        assert(on_path(t0, p as int, p as int));
                        assert(on_path(t0, cur as int, p as int));
                        lemma_path_trans(t0, start as int, cur as int, p as int);
                        if on_path(t0, p as int, cur as int) {
                            lemma_path_below(t0, p as int, cur as int);
                        }
                        assert(forall|i: int|
                            on_path(t0, cur as int, i) == (i == cur as int || on_path(
                                t0,
                                p as int,
                                i,
                            )));
                    }
                    cur = p;
                },
                None => {
                    proof {
                        assert(cur == 0);
                        assert(forall|i: int| on_path(t0, 0, i) == (i == 0));
                    }
                    break ;
                },
            }
        }
        proof {
            assert forall|i: int|
                0 <= i < t0.nodes.len() implies t0.nodes[i].wins <= (
            #[trigger] self@.nodes[i]).wins <= t0.nodes[i].wins + (if on_path(
                t0,
                start as int,
                i,
            ) {
                1int
            } else {
                0int
            }) by {}
            lemma_backprop_wf(t0, self@, start as int);
        }
    }

    /// Descends from the root, at each step moving to the child with the
    /// greatest UCT value (the latest such child on ties), until reaching a
    /// node without children. Where the root has children the result is a
    /// strict descendant of the root.
    pub fn select_node(&self) -> (r: usize)
        requires
            tree_wf(self@),
        ensures
            (r as int) < self@.nodes.len(),
            self@.nodes[r as int].children.len() == 0,
            self@.nodes[0].children.len() > 0 ==> r != 0,
            self@.nodes[0].children.len() == 0 ==> r == 0,
            exists|path: Seq<int>| #[trigger] uct_descent(self@, path, r as int),
    {
        let mut cur: usize = 0;
        let ghost mut path: Seq<int> = seq![0int];
        while self.arena[cur].children.len() > 0
            invariant
                tree_wf(self@),
                (cur as int) < self@.nodes.len(),
                path.len() >= 1,
                path[0] == 0,
                path.last() == cur as int,
                forall|k: int| 0 <= k < path.len() - 1 ==> uct_step(self@, #[trigger] path[k], path[k + 1]),
            decreases self@.nodes.len() - cur,
        {
            let ghost prev = path;
            cur = self.best_uct_child(cur);
            proof {
                path = path.push(cur as int);
                assert(forall|k: int| 0 <= k < prev.len() ==> #[trigger] path[k] == prev[k]);
                assert(uct_step(self@, path[path.len() - 2], path[path.len() - 1]));
            }
        }
        proof {
            assert(uct_descent(self@, path, cur as int));
        }
        cur
    }

    /// The child of `node` with the greatest UCT value — the latest such
    /// child on ties. The parent's own visit count feeds every child's
    /// exploration term.
    fn best_uct_child(&self, node: usize) -> (r: usize)
        requires
            tree_wf(self@),
            (node as int) < self@.nodes.len(),
            self@.nodes[node as int].children.len() > 0,
        ensures
            (node as int) < r < self@.nodes.len(),
            uct_step(self@, node as int, r as int),
    {
        proof {
            assert(node_wf(self@, node as int));
        }
        let parent_sims = self.arena[node].sims;
        let child0 = self.arena[node].children[0];
        proof {
            assert(self@.nodes[node as int].children[0] == child0 as int);
            assert(node_wf(self@, child0 as int));
        }
        let mut best_idx: usize = child0;
        let mut best_val = self.arena[child0].uct_value(parent_sims);
        let mut j: usize = 1;
        while j < self.arena[node].children.len()
            invariant
                tree_wf(self@),
                (node as int) < self@.nodes.len(),
                self@.nodes[node as int].children.len() > 0,
                1 <= j <= self@.nodes[node as int].children.len(),
                parent_sims as int == self@.nodes[node as int].sims,
                (node as int) < best_idx < self@.nodes.len(),
                self@.nodes[node as int].children.contains(best_idx as int),
                best_val == spec_node_uct(self@, best_idx as int, parent_sims as int),
                forall|k: int|
                    0 <= k < j ==> spec_uct_le(
                        spec_node_uct(
                            self@,
                            #[trigger] self@.nodes[node as int].children[k],
                            parent_sims as int,
                        ),
                        spec_node_uct(self@, best_idx as int, parent_sims as int),
                    ),
            decreases self@.nodes[node as int].children.len() - j,
        {
            proof {
                assert(node_wf(self@, node as int));
            }
            let c = self.arena[node].children[j];
            proof {
                assert(self@.nodes[node as int].children[j as int] == c as int);
                assert(node_wf(self@, c as int));
            }
            let v = self.arena[c].uct_value(parent_sims);
            if uct_ge(v, best_val) {
                best_val = v;
                best_idx = c;
            }
            j = j + 1;
        }
        best_idx
    }

    /// Creates one child of `node` per legal action of its position — unless
    /// `node` already has children (nothing is added then), or its position
    /// has no legal action (a terminal leaf stays a leaf forever). Every
    /// child snapshots the position after its action; statistics of existing
    /// nodes are untouched and new nodes start unvisited.
    pub fn expand(&mut self, node: usize)
        requires
            tree_wf(old(self)@),
            (node as int) < old(self)@.nodes.len(),
        ensures
            tree_wf(final(self)@),
            old(self)@.nodes.len() <= final(self)@.nodes.len(),
            old(self)@.boards.len() <= final(self)@.boards.len(),
            forall|i: int|
                0 <= i < old(self)@.nodes.len() ==> {
                    let x = #[trigger] final(self)@.nodes[i];
                    let y = old(self)@.nodes[i];
                    x.sims == y.sims && x.wins == y.wins && x.board == y.board && x.action
                        == y.action && x.parent == y.parent && (i != node as int ==> x.children
                        == y.children)
                },
            forall|i: int|
                old(self)@.nodes.len() <= i < final(self)@.nodes.len() ==> (
                #[trigger] final(self)@.nodes[i]).sims == 0 && final(self)@.nodes[i].parent
                    == Some(node as int),
            forall|i: int|
                0 <= i < old(self)@.boards.len() ==> #[trigger] final(self)@.boards[i] == old(
                    self,
                )@.boards[i],
            node != 0 ==> final(self)@.nodes[0].children == old(self)@.nodes[0].children,
            (final(self)@.nodes[node as int].children.len() > 0) <==> (old(
                self,
            )@.nodes[node as int].children.len() > 0 || spec_all_actions(
                old(self)@.boards[old(self)@.nodes[node as int].board],
            ).len() > 0),
            old(self)@.nodes[node as int].children.len() > 0 ==> final(self)@ == old(self)@,
            old(self)@.nodes[node as int].children.len() == 0 ==> expanded_children(
                old(self)@,
                final(self)@,
                node as int,
            ),
    {
        let ghost t0 = self@;
        proof {
            assert(node_wf(t0, node as int));
        }
        if self.arena[node].children.len() > 0 {
            return ;
        }
        let board_handle = self.arena[node].board;
        let ghost b = t0.boards[board_handle as int];
        let mut mm = MoveMemHandler::new();
        self.board_arena[board_handle].get_all_actions(&mut mm);
        let n_actions = mm.len();
        let ghost old_nodes_len = t0.nodes.len();
        let ghost old_boards_len = t0.boards.len();
        let mut i: usize = 0;
        while i < n_actions
            invariant
                tree_wf(t0),
                (node as int) < old_nodes_len,
                t0.nodes[node as int].children.len() == 0,
                old_nodes_len == t0.nodes.len(),
                old_boards_len == t0.boards.len(),
                board_handle as int == t0.nodes[node as int].board,
                0 <= (board_handle as int) && (board_handle as int) < old_boards_len,
                b == t0.boards[board_handle as int],
                b.grid.len() == 64,
                mm.spec_actions() == spec_avail_actions(b),
                i <= n_actions == spec_avail_actions(b).len(),
                self@.nodes.len() == old_nodes_len + i,
                self@.boards.len() == old_boards_len + i,
                self@.root == t0.root,
                forall|k: int|
                    0 <= k < old_boards_len ==> #[trigger] self@.boards[k] == t0.boards[k],
                forall|k: int|
                    0 <= k < i ==> #[trigger] self@.boards[old_boards_len + k] == spec_execute(
                        b,
                        spec_avail_actions(b)[k],
                    ),
                forall|k: int|
                    0 <= k < old_nodes_len && k != node as int ==> #[trigger] self@.nodes[k]
                        == t0.nodes[k],
                self@.nodes[node as int].board == t0.nodes[node as int].board,
                self@.nodes[node as int].sims == t0.nodes[node as int].sims,
                self@.nodes[node as int].wins == t0.nodes[node as int].wins,
                self@.nodes[node as int].action == t0.nodes[node as int].action,
                self@.nodes[node as int].parent == t0.nodes[node as int].parent,
                self@.nodes[node as int].children == Seq::new(i as nat, |k: int| old_nodes_len + k),
                forall|k: int|
                    0 <= k < i ==> {
                        let c = #[trigger] self@.nodes[old_nodes_len + k];
                        c.sims == 0 && c.wins == 0 && c.parent == Some(node as int) && c.action
                            == Some(spec_avail_actions(b)[k]) && c.board == old_boards_len + k
                            && c.children == Seq::<int>::empty()
                    },
            decreases n_actions - i,
        {
            let ghost iter0 = self@;
            let action = mm.get(i);
            proof {
                assert(b.grid.len() == 64);
                lemma_all_actions_wf(b);
                assert(spec_avail_actions(b)[i as int] == spec_all_actions(b)[i as int]);
                assert(action_wf(b.grid, action));
                assert(self@.boards[board_handle as int] == b);
            }
            let ghost pre_b = self@;
            let mut child = NodeState::new_child(board_handle, action, &mut self.board_arena);
            child.parent = Some(node);
            proof {
                assert(self.board_arena@.len() == pre_b.boards.len() + 1);
                assert(forall|k: int|
                    0 <= k < pre_b.boards.len() ==> #[trigger] self.board_arena@[k]@
                        == pre_b.boards[k]);
                assert(self.board_arena@[pre_b.boards.len() as int]@ == spec_execute(
                    b,
                    spec_avail_actions(b)[i as int],
                ));
            }
            let child_idx = self.arena.len();
            self.arena.push(child);
            let ghost pre = self@;
            let n = &mut self.arena[node];
            n.children.push(child_idx);
            proof {
                assert(forall|k: int|
                    0 <= k < pre_b.boards.len() ==> #[trigger] self@.boards[k]
                        == pre_b.boards[k]);
                assert(self@.boards[pre_b.boards.len() as int] == spec_execute(
                    b,
                    spec_avail_actions(b)[i as int],
                ));
                assert(pre.nodes.len() == iter0.nodes.len() + 1);
                assert(forall|k: int|
                    0 <= k < iter0.nodes.len() ==> #[trigger] pre.nodes[k] == iter0.nodes[k]);
                assert(pre.nodes[child_idx as int] == child@);
                assert(child@.parent == Some(node as int));
                assert(child@.sims == 0 && child@.wins == 0);
                assert(child@.board == old_boards_len + i);
                assert(child@.action == Some(spec_avail_actions(b)[i as int]));
                assert(child@.children == Seq::<int>::empty());
                assert(forall|k: int|
                    0 <= k < pre.nodes.len() && k != node as int ==> #[trigger] self@.nodes[k]
                        == pre.nodes[k]);
                assert(self@.nodes[node as int].children =~= pre.nodes[node as int].children.push(
                    child_idx as int,
                ));
                assert(self@.nodes[node as int].children =~= Seq::new(
                    (i + 1) as nat,
                    |k: int| old_nodes_len + k,
                ));
            }
            i = i + 1;
        }
        proof {
            let t1 = self@;
            let n_new = t1.nodes.len() - old_nodes_len;
            assert forall|k: int|
                old_nodes_len <= k < t1.nodes.len() implies {
                    let c = #[trigger] t1.nodes[k];
                    c.sims == 0 && c.wins == 0 && c.parent == Some(node as int) && c.action
                        == Some(spec_avail_actions(b)[k - old_nodes_len]) && c.board
                        == old_boards_len + (k - old_nodes_len) && c.children
                        == Seq::<int>::empty()
                } by {
                let kk = k - old_nodes_len;
                assert(t1.nodes[old_nodes_len + kk].sims == 0);
            }
            assert forall|k: int| 0 <= k < t1.nodes.len() implies node_wf(t1, k) by {
                if k < old_nodes_len {
                    assert(node_wf(t0, k));
                    if k != node as int {
                        assert(t1.nodes[k] == t0.nodes[k]);
                    }
                    if k != 0 {
                        let p = t0.nodes[k].parent.unwrap();
                        if p == node as int {
                            assert(t0.nodes[node as int].children.contains(k));
                            assert(false);
                        }
                        assert(t1.nodes[p].children == t0.nodes[p].children);
                        assert(node_wf(t0, p));
                        assert(t1.nodes[p].board == t0.nodes[p].board);
                        assert(t1.boards[t0.nodes[p].board] == t0.boards[t0.nodes[p].board]);
                        let w = choose|w: int|
                            0 <= w < spec_avail_actions(t0.boards[t0.nodes[p].board]).len()
                                && t0.nodes[k].action == Some(
                                #[trigger] spec_avail_actions(t0.boards[t0.nodes[p].board])[w],
                            );
                        assert(t1.nodes[k].action == Some(
                            spec_avail_actions(t1.boards[t1.nodes[p].board])[w],
                        ));
                        assert(is_child_action(t1, k));
                    }
                } else {
                    let kk = k - old_nodes_len;
                    assert(t1.nodes[old_nodes_len + kk].sims == 0);
                    assert(t1.nodes[node as int].children[kk] == k);
                    assert(t1.nodes[node as int].children.contains(k));
                    assert(t1.boards[old_boards_len + kk] == spec_execute(
                        b,
                        spec_avail_actions(b)[kk],
                    ));
                    assert(t1.nodes[node as int].board == board_handle as int);
                    assert(t1.boards[board_handle as int] == b);
                    assert(t1.nodes[k].action == Some(
                        spec_avail_actions(t1.boards[t1.nodes[node as int].board])[kk],
                    ));
                    assert(is_child_action(t1, k));
                }
            }
            assert(t1.nodes[0].sims == t0.nodes[0].sims);
            assert forall|j: int|
                0 <= j < t1.boards.len() implies (#[trigger] t1.boards[j]).grid.len() == 64 by {
                if j >= old_boards_len {
                    let kk = j - old_boards_len;
                    assert(t1.boards[old_boards_len + kk] == spec_execute(
                        b,
                        spec_avail_actions(b)[kk],
                    ));
                    lemma_all_actions_wf(b);
                    assert(spec_avail_actions(b)[kk] == spec_all_actions(b)[kk]);
                    crate::board::lemma_execute_grid_len(b, spec_avail_actions(b)[kk]);
                } else {
                    assert(t1.boards[j] == t0.boards[j]);
                }
            }
            if spec_all_actions(b).len() > 0 {
                assert(spec_avail_actions(b).len() > 0);
            }
            assert(t1.nodes[node as int].children =~= Seq::new(
                spec_avail_actions(b).len(),
                |k: int| old_nodes_len + k,
            ));
            assert forall|k: int|
                0 <= k < spec_avail_actions(b).len() implies t1.boards[old_boards_len + k]
                == spec_execute(b, spec_avail_actions(b)[k]) by {}
            assert(expanded_children(t0, t1, node as int));
        }
    }

    /// Plays one random game to completion from the position of `node` — on
    /// a clone, the stored snapshot is untouched — and credits the outcome
    /// along the path from `node` to the root. The game is capped at
    /// `PLAYOUT_CAP` random moves; one still unfinished at the cap is scored
    /// as lost by the side then to move. Whatever the outcome, every node on
    /// the path gains exactly one visit and at most one win.
    pub fn play_out(&mut self, node: usize)
        requires
            tree_wf(old(self)@),
            (node as int) < old(self)@.nodes.len(),
            old(self)@.nodes[0].sims < 0xFFFF_FFFF,
        ensures
            tree_wf(final(self)@),
            same_shape(old(self)@, final(self)@),
            forall|i: int|
                0 <= i < final(self)@.nodes.len() ==> (#[trigger] final(self)@.nodes[i]).sims
                    == old(self)@.nodes[i].sims + (if on_path(old(self)@, node as int, i) {
                    1int
                } else {
                    0int
                }),
            exists|w: Color| #[trigger] credited(old(self)@, final(self)@, node as int, w),
            final(self)@.nodes[0].sims == old(self)@.nodes[0].sims + 1,
    {
        proof {
            assert(node_wf(self@, node as int));
        }
        let bh = self.arena[node].board;
        let mut copy_board = self.board_arena[bh].clone();
        let mut mm = MoveMemHandler::new();
        let mut winning: Color = copy_board.get_current_color().opposite();
        let mut finished = false;
        let mut fuel: u32 = PLAYOUT_CAP;
        while fuel > 0 && !finished
            decreases fuel,
        {
            match copy_board.make_random_move(&mut mm) {
                Some(w) => {
                    winning = w;
                    finished = true;
                },
                None => {},
            }
            fuel = fuel - 1;
        }
        if !finished {
            winning = copy_board.get_current_color().opposite();
        }
        self.back_propagate(node, winning);
    }

    /// One search iteration: select a leaf by UCT value, expand it, choose a
    /// rollout node uniformly among its children (or the leaf itself where
    /// it has none), play a random game from there and credit the outcome
    /// along the path to the root. The root gains exactly one visit; where
    /// the root was already expanded, its children's visit counts gain
    /// exactly one in total and its child list does not change.
    pub fn expand_tree(&mut self)
        requires
            tree_wf(old(self)@),
            old(self)@.nodes[0].sims < 0xFFFF_FFFF,
        ensures
            tree_wf(final(self)@),
            final(self)@.nodes[0].sims == old(self)@.nodes[0].sims + 1,
            final(self)@.nodes[0].board == old(self)@.nodes[0].board,
            old(self)@.boards.len() <= final(self)@.boards.len(),
            forall|i: int|
                0 <= i < old(self)@.boards.len() ==> #[trigger] final(self)@.boards[i] == old(
                    self,
                )@.boards[i],
            old(self)@.nodes[0].children.len() > 0 ==> final(self)@.nodes[0].children == old(
                self,
            )@.nodes[0].children && sum_sims(final(self)@.nodes, final(self)@.nodes[0].children)
                == sum_sims(old(self)@.nodes, old(self)@.nodes[0].children) + 1,
    {
        let ghost t0 = self@;
        let promising = self.select_node();
        self.expand(promising);
        let ghost t1 = self@;
        proof {
            assert(node_wf(t1, promising as int));
        }
        let child_count = self.arena[promising].children.len();
        let rollout: usize = if child_count > 0 {
            let idx = random_below(child_count);
            let c = self.arena[promising].children[idx];
            proof {
                assert(t1.nodes[promising as int].children[idx as int] == c as int);
            }
            c
        } else {
            promising
        };
        self.play_out(rollout);
        proof {
            let t2 = self@;
            if t0.nodes[0].children.len() > 0 {
                let ch = t0.nodes[0].children;
                assert(promising != 0);
                assert(t1.nodes[0].children == ch);
                assert(t2.nodes[0].children == ch);
                assert(rollout != 0);
                assert(node_wf(t0, 0));
                assert(forall|j: int| 0 <= j < ch.len() ==> 0 < #[trigger] ch[j] < t0.nodes.len());
                assert forall|j: int|
                    0 <= j < ch.len() implies t1.nodes[#[trigger] ch[j]].sims
                        == t0.nodes[ch[j]].sims by {}
                lemma_sum_same(t0.nodes, t1.nodes, ch);
                lemma_sum_after_path(t1.nodes, t2.nodes, t1, rollout as int, ch);
                lemma_count_root_children(t1, rollout as int);
            }
        }
    }

    /// Visit accounting: every iteration adds exactly one visit to the root
    /// and, the root being expanded, exactly one visit in total to the
    /// root's children — so `n` iterations add exactly `n` to the sum of the
    /// children's visit counts.
    pub fn run_iterations(&mut self, n: u32)
        requires
            tree_wf(old(self)@),
            old(self)@.nodes[0].children.len() > 0,
            old(self)@.nodes[0].sims + n <= 0xFFFF_FFFF,
        ensures
            tree_wf(final(self)@),
            final(self)@.nodes[0].children == old(self)@.nodes[0].children,
            final(self)@.nodes[0].sims == old(self)@.nodes[0].sims + n,
            final(self)@.nodes[0].board == old(self)@.nodes[0].board,
            old(self)@.boards.len() <= final(self)@.boards.len(),
            forall|i: int|
                0 <= i < old(self)@.boards.len() ==> #[trigger] final(self)@.boards[i] == old(
                    self,
                )@.boards[i],
            sum_sims(final(self)@.nodes, final(self)@.nodes[0].children) == sum_sims(
                old(self)@.nodes,
                old(self)@.nodes[0].children,
            ) + n,
    {
        let mut it: u32 = 0;
        while it < n
            invariant
                it <= n,
                tree_wf(self@),
                self@.nodes[0].children == old(self)@.nodes[0].children,
                self@.nodes[0].children.len() > 0,
                old(self)@.nodes[0].sims + n <= 0xFFFF_FFFF,
                self@.nodes[0].sims == old(self)@.nodes[0].sims + it,
                self@.nodes[0].board == old(self)@.nodes[0].board,
                old(self)@.boards.len() <= self@.boards.len(),
                forall|i: int|
                    0 <= i < old(self)@.boards.len() ==> #[trigger] self@.boards[i] == old(
                        self,
                    )@.boards[i],
                sum_sims(self@.nodes, self@.nodes[0].children) == sum_sims(
                    old(self)@.nodes,
                    old(self)@.nodes[0].children,
                ) + it,
            decreases n - it,
        {
            self.expand_tree();
            it = it + 1;
        }
    }

    /// The robust-child choice: the action of the root child with the most
    /// visits (the latest such child on ties). The root must have children.
    pub fn select_best_move(&self) -> (r: Action)
        requires
            tree_wf(self@),
            self@.nodes[0].children.len() > 0,
        ensures
            exists|j: int|
                #[trigger] best_root_child(self@, j) && Some(r)
                    == self@.nodes[self@.nodes[0].children[j]].action,
    {
        proof {
            assert(node_wf(self@, 0));
        }
        let root = self.root;
        let first = self.arena[root].children[0];
        proof {
            assert(self@.nodes[0].children[0] == first as int);
            assert(node_wf(self@, first as int));
        }
        let mut best_j: usize = 0;
        let mut best_sims: u64 = self.arena[first].sims;
        let mut j: usize = 1;
        while j < self.arena[root].children.len()
            invariant
                tree_wf(self@),
                self@.root == root as int,
                self@.nodes[0].children.len() > 0,
                1 <= j <= self@.nodes[0].children.len(),
                (best_j as int) < j,
                best_sims as int == self@.nodes[self@.nodes[0].children[best_j as int]].sims,
                forall|k: int|
                    0 <= k < j ==> self@.nodes[#[trigger] self@.nodes[0].children[k]].sims
                        <= best_sims as int,
            decreases self@.nodes[0].children.len() - j,
        {
            proof {
                assert(node_wf(self@, 0));
            }
            let c = self.arena[root].children[j];
            proof {
                assert(self@.nodes[0].children[j as int] == c as int);
                assert(node_wf(self@, c as int));
            }
            if self.arena[c].sims >= best_sims {
                best_sims = self.arena[c].sims;
                best_j = j;
            }
            j = j + 1;
        }
        let best_child = self.arena[root].children[best_j];
        proof {
            assert(self@.nodes[0].children[best_j as int] == best_child as int);
            assert(node_wf(self@, best_child as int));
            assert(best_root_child(self@, best_j as int));
        }
        let act = self.arena[best_child].action_taken;
        act.unwrap()
    }

    /// How many children the root has.
    pub fn root_child_count(&self) -> (r: usize)
        requires
            tree_wf(self@),
        ensures
            r == self@.nodes[0].children.len(),
    {
        self.arena[self.root].children.len()
    }

    /// The visit count of the root's `j`-th child.
    pub fn root_child_sims(&self, j: usize) -> (r: u64)
        requires
            tree_wf(self@),
            (j as int) < self@.nodes[0].children.len(),
        ensures
            r == self@.nodes[self@.nodes[0].children[j as int]].sims,
    {
        proof {
            assert(node_wf(self@, 0));
        }
        let c = self.arena[self.root].children[j];
        proof {
            assert(self@.nodes[0].children[j as int] == c as int);
        }
        self.arena[c].sims
    }

    /// The root's own visit count.
    pub fn root_sims(&self) -> (r: u64)
        requires
            tree_wf(self@),
        ensures
            r == self@.nodes[0].sims,
    {
        self.arena[self.root].sims
    }

    /// The action that created the root's `j`-th child.
    pub fn root_child_action(&self, j: usize) -> (r: Action)
        requires
            tree_wf(self@),
            (j as int) < self@.nodes[0].children.len(),
        ensures
            Some(r) == self@.nodes[self@.nodes[0].children[j as int]].action,
    {
        proof {
            assert(node_wf(self@, 0));
        }
        let c = self.arena[self.root].children[j];
        proof {
            assert(self@.nodes[0].children[j as int] == c as int);
            assert(node_wf(self@, c as int));
        }
        self.arena[c].action_taken.unwrap()
    }

    /// Computes the best action for the side to move at the root position.
    /// With exactly one legal action it is returned at once and the tree is
    /// untouched — no search iteration runs. Otherwise the root is expanded,
    /// `iterations` search iterations run, and the action of the
    /// most-visited root child is returned.
    pub fn get_monte_carlo_move(&mut self, iterations: u32) -> (r: Action)
        requires
            tree_wf(old(self)@),
            spec_all_actions(old(self)@.boards[old(self)@.nodes[0].board]).len() >= 1,
            old(self)@.nodes[0].sims + iterations <= 0xFFFF_FFFF,
        ensures
            tree_wf(final(self)@),
            exists|i: int|
                0 <= i < spec_all_actions(old(self)@.boards[old(self)@.nodes[0].board]).len()
                    && r == #[trigger] spec_all_actions(
                    old(self)@.boards[old(self)@.nodes[0].board],
                )[i],
            spec_all_actions(old(self)@.boards[old(self)@.nodes[0].board]).len() == 1 ==> r
                == spec_all_actions(old(self)@.boards[old(self)@.nodes[0].board])[0]
                && final(self)@ == old(self)@,
            spec_all_actions(old(self)@.boards[old(self)@.nodes[0].board]).len() != 1
                ==> final(self)@.nodes[0].sims == old(self)@.nodes[0].sims + iterations
                    && exists|j: int|
                    #[trigger] best_root_child(final(self)@, j) && Some(r)
                        == final(self)@.nodes[final(self)@.nodes[0].children[j]].action,
    {
        proof {
            assert(node_wf(self@, 0));
        }
        let root = self.root;
        let handle = self.arena[root].board;
        let ghost b = self@.boards[handle as int];
        let mut mm = MoveMemHandler::new();
        self.board_arena[handle].get_all_actions(&mut mm);
        if mm.len() == 1 {
            proof {
                assert(mm.spec_actions() == spec_avail_actions(b));
                assert(spec_all_actions(b).len() == 1);
                assert(spec_avail_actions(b) == spec_all_actions(b));
            }
            return mm.get(0);
        }
        proof {
            assert(spec_all_actions(b).len() > 1);
        }
        let ghost t0 = self@;
        self.expand(root);
        self.run_iterations(iterations);
        let best = self.select_best_move();
        proof {
            let t2 = self@;
            // the chosen child's action is a legal action of the root position
            assert(t2.nodes[0].board == handle as int);
            assert(0 <= (handle as int) < t0.boards.len());
            assert(t2.boards[handle as int] == b);
            let j = choose|j: int|
                #[trigger] best_root_child(t2, j) && Some(best)
                    == t2.nodes[t2.nodes[0].children[j]].action;
            assert(node_wf(t2, 0));
            let c = t2.nodes[0].children[j];
            assert(node_wf(t2, c));
            assert(t2.nodes[c].parent == Some(0int));
            let k = choose|k: int|
                0 <= k < spec_avail_actions(t2.boards[t2.nodes[0].board]).len()
                    && t2.nodes[c].action == Some(
                    #[trigger] spec_avail_actions(t2.boards[t2.nodes[0].board])[k],
                );
            assert(best == spec_avail_actions(b)[k]);
            assert(spec_avail_actions(b)[k] == spec_all_actions(b)[k]);
        }
        best
    }
}

/// The cap on a single playout's length, in random moves. A random game
/// normally ends long before it; the cap bounds one iteration's work.
pub const PLAYOUT_CAP: u32 = 10000;

/// The UCT value of node `i` under a parent with `parent_sims` visits:
/// infinite where the node is unvisited, the fixed-point UCT score
/// otherwise.
pub open spec fn spec_node_uct(t: TreeView, i: int, parent_sims: int) -> UctValue {
    if t.nodes[i].sims == 0 {
        UctValue::Infinite
    } else {
        UctValue::Finite(spec_uct_score(t.nodes[i].wins, t.nodes[i].sims, parent_sims) as u64)
    }
}

/// UCT exploration bias law: an unvisited node's UCT value is strictly
/// greater than that of any visited sibling, whatever the sibling's
/// statistics and whatever the shared parent's visit count.
pub proof fn lemma_uct_exploration_bias(t: TreeView, i: int, j: int, parent_sims: int)
    requires
        0 <= i < t.nodes.len(),
        0 <= j < t.nodes.len(),
        t.nodes[i].sims == 0,
        t.nodes[j].sims > 0,
    ensures
        !spec_uct_le(spec_node_uct(t, i, parent_sims), spec_node_uct(t, j, parent_sims)),
        spec_uct_le(spec_node_uct(t, j, parent_sims), spec_node_uct(t, i, parent_sims)),
{
}

/// One greedy selection step: `c` is a child of `node` whose UCT value —
/// computed under `node`'s own visit count — no sibling exceeds. An
/// unvisited child has infinite value, so it always qualifies over visited
/// siblings.
pub open spec fn uct_step(t: TreeView, node: int, c: int) -> bool {
    &&& t.nodes[node].children.contains(c)
    &&& forall|k: int|
        0 <= k < t.nodes[node].children.len() ==> spec_uct_le(
            spec_node_uct(t, #[trigger] t.nodes[node].children[k], t.nodes[node].sims),
            spec_node_uct(t, c, t.nodes[node].sims),
        )
}

/// A maximal-UCT descent from the root: consecutive path entries are greedy
/// steps and the path ends at the childless node `r`. A childless root
/// descends nowhere: the path is just the root.
pub open spec fn uct_descent(t: TreeView, path: Seq<int>, r: int) -> bool {
    &&& path.len() >= 1
    &&& path[0] == 0
    &&& path.last() == r
    &&& t.nodes[r].children.len() == 0
    &&& forall|k: int| 0 <= k < path.len() - 1 ==> uct_step(t, #[trigger] path[k], path[k + 1])
}

/// Whether root child `j` is a most-visited child of the root.
pub open spec fn best_root_child(t: TreeView, j: int) -> bool {
    &&& 0 <= j < t.nodes[0].children.len()
    &&& forall|k: int|
        0 <= k < t.nodes[0].children.len() ==> t.nodes[#[trigger] t.nodes[0].children[k]].sims
            <= t.nodes[t.nodes[0].children[j]].sims
}

/// How many of the handles in `ch` lie on the path from `start`.
pub open spec fn count_on_path(t: TreeView, start: int, ch: Seq<int>) -> int
    decreases ch.len(),
{
    if ch.len() == 0 {
        0
    } else {
        count_on_path(t, start, ch.drop_last()) + (if on_path(t, start, ch.last()) {
            1int
        } else {
            0int
        })
    }
}

/// A handle list's visit sum only depends on the visit counts at its
/// handles.
proof fn lemma_sum_same(nodes0: Seq<NodeView>, nodes1: Seq<NodeView>, ch: Seq<int>)
    requires
        forall|j: int|
            0 <= j < ch.len() ==> nodes1[#[trigger] ch[j]].sims == nodes0[ch[j]].sims,
    ensures
        sum_sims(nodes1, ch) == sum_sims(nodes0, ch),
    decreases ch.len(),
{
    if ch.len() > 0 {
        assert(forall|j: int|
            0 <= j < ch.len() - 1 ==> ch.drop_last()[j] == #[trigger] ch[j]);
        lemma_sum_same(nodes0, nodes1, ch.drop_last());
    }
}

/// Crediting one path raises a handle list's visit sum by the number of its
/// handles on the path.
proof fn lemma_sum_after_path(
    nodes0: Seq<NodeView>,
    nodes1: Seq<NodeView>,
    t: TreeView,
    start: int,
    ch: Seq<int>,
)
    requires
        nodes0.len() == nodes1.len(),
        forall|j: int| 0 <= j < ch.len() ==> 0 <= #[trigger] ch[j] < nodes0.len(),
        forall|i: int|
            0 <= i < nodes0.len() ==> (#[trigger] nodes1[i]).sims == nodes0[i].sims + (
            if on_path(t, start, i) {
                1int
            } else {
                0int
            }),
    ensures
        sum_sims(nodes1, ch) == sum_sims(nodes0, ch) + count_on_path(t, start, ch),
    decreases ch.len(),
{
    if ch.len() > 0 {
        assert(forall|j: int|
            0 <= j < ch.len() - 1 ==> ch.drop_last()[j] == #[trigger] ch[j]);
        lemma_sum_after_path(nodes0, nodes1, t, start, ch.drop_last());
    }
}

/// No handle off the path contributes to the count.
proof fn lemma_count_zero(t: TreeView, start: int, ch: Seq<int>)
    requires
        forall|j: int| 0 <= j < ch.len() ==> !on_path(t, start, #[trigger] ch[j]),
    ensures
        count_on_path(t, start, ch) == 0,
    decreases ch.len(),
{
    if ch.len() > 0 {
        assert(forall|j: int|
            0 <= j < ch.len() - 1 ==> ch.drop_last()[j] == #[trigger] ch[j]);
        lemma_count_zero(t, start, ch.drop_last());
    }
}

/// A list of distinct handles of which exactly one value, present in the
/// list, lies on the path counts exactly one.
proof fn lemma_count_one(t: TreeView, start: int, c: int, ch: Seq<int>)
    requires
        forall|j: int|
            0 <= j < ch.len() ==> (on_path(t, start, #[trigger] ch[j]) <==> ch[j] == c),
        ch.contains(c),
        forall|j1: int, j2: int| 0 <= j1 < j2 < ch.len() ==> ch[j1] != ch[j2],
    ensures
        count_on_path(t, start, ch) == 1,
    decreases ch.len(),
{
    let rest = ch.drop_last();
    assert(forall|j: int| 0 <= j < ch.len() - 1 ==> rest[j] == #[trigger] ch[j]);
    if ch.last() == c {
        assert forall|j: int| 0 <= j < rest.len() implies !on_path(t, start, #[trigger] rest[j]) by {
            assert(rest[j] == ch[j]);
            assert(ch[j] != ch[ch.len() - 1]);
        }
        lemma_count_zero(t, start, rest);
    } else {
        let j0 = choose|j0: int| 0 <= j0 < ch.len() && ch[j0] == c;
        assert(j0 < ch.len() - 1);
        assert(rest[j0] == c);
        assert(rest.contains(c));
        lemma_count_one(t, start, c, rest);
    }
}

/// The child of the root through which a path passes.
spec fn path_root_child(t: TreeView, start: int) -> int
    decreases start,
{
    if t.nodes[start].parent == Some(0int) {
        start
    } else {
        match t.nodes[start].parent {
            Some(p) => if 0 <= p < start {
                path_root_child(t, p)
            } else {
                0
            },
            None => 0,
        }
    }
}

/// From a non-root node, the path to the root passes through exactly one
/// child of the root: `path_root_child`.
proof fn lemma_path_root_child(t: TreeView, start: int)
    requires
        tree_wf(t),
        0 < start < t.nodes.len(),
    ensures
        ({
            let c = path_root_child(t, start);
            &&& 0 < c < t.nodes.len()
            &&& t.nodes[c].parent == Some(0int)
            &&& on_path(t, start, c)
            &&& forall|j: int|
                on_path(t, start, j) && t.nodes[j].parent == Some(0int) ==> j == c
        }),
    decreases start,
{
    assert(node_wf(t, start));
    let p = t.nodes[start].parent.unwrap();
    if p == 0 {
        assert(path_root_child(t, start) == start);
        assert(node_wf(t, 0));
        assert forall|j: int|
            on_path(t, start, j) && t.nodes[j].parent == Some(0int) implies j == start by {
            if j != start {
                assert(on_path(t, 0, j));
                assert(j == 0);
            }
        }
    } else {
        lemma_path_root_child(t, p);
        let c = path_root_child(t, p);
        assert(path_root_child(t, start) == c);
        assert(on_path(t, p, p));
        assert(on_path(t, start, p));
        lemma_path_trans(t, start, p, c);
        assert forall|j: int|
            on_path(t, start, j) && t.nodes[j].parent == Some(0int) implies j == c by {
            if j != start {
                assert(on_path(t, p, j));
            }
        }
    }
}

/// In a well-formed tree, exactly one of the root's children lies on the
/// path from any non-root node.
proof fn lemma_count_root_children(t: TreeView, start: int)
    requires
        tree_wf(t),
        0 < start < t.nodes.len(),
    ensures
        count_on_path(t, start, t.nodes[0].children) == 1,
{
    lemma_path_root_child(t, start);
    let c = path_root_child(t, start);
    assert(node_wf(t, c));
    assert(t.nodes[0].children.contains(c));
    assert(node_wf(t, 0));
    let ch = t.nodes[0].children;
    assert forall|j: int|
        0 <= j < ch.len() implies (on_path(t, start, #[trigger] ch[j]) <==> ch[j] == c) by {
        assert(t.nodes[ch[j]].parent == Some(0int));
        if on_path(t, start, ch[j]) {
            assert(ch[j] == c);
        }
        if ch[j] == c {
            assert(on_path(t, start, c));
        }
    }
    lemma_count_one(t, start, c, ch);
}

} // verus!
