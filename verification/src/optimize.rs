//! Peephole optimization of a program tree: runs of moves and runs of adds are
//! fused into one node each, and nodes that do nothing are dropped.
//!
//! Offsets and deltas are summed with wraparound in `i32`, which agrees with
//! the machine: it moves its position with wraparound in `i32` and adds to
//! a cell modulo 256.

use vstd::prelude::*;
use crate::parse::Expr;
use crate::parse::Node;
use crate::parse::node_of;
use crate::parse::nodes_of;
use crate::parse::lemma_view_loop;
use crate::parse::lemma_view_push;
use crate::parse::lemma_view_take;
use crate::compile::flat_len;
use crate::compile::node_len;
use crate::compile::lemma_flat_len_append;
use crate::compile::lemma_flat_len_push;

verus! {

/// What two neighbours fuse to: two moves to a move by the wrapped sum of
/// their offsets, two adds to an add of the wrapped sum of their deltas.
/// Anything else does not fuse.
pub open spec fn merged(pending: Node, current: Node) -> Option<Node> {
    match (pending, current) {
        (Node::Move(a), Node::Move(b)) => Some(Node::Move(a.wrapping_add(b))),
        (Node::Add(a), Node::Add(b)) => Some(Node::Add(a.wrapping_add(b))),
        _ => None,
    }
}

/// The state of the fusing pass after it has read `program`: the nodes it has
/// emitted, and the pending node that the next one may still fuse with.
///
/// The pass starts with nothing emitted and a pending `Add(0)`. A node that
/// fuses with the pending one replaces it by their fusion. Any other node
/// flushes the pending one and becomes pending itself, a loop with its body
/// compressed.
pub open spec fn fused(program: Seq<Node>) -> (Seq<Node>, Node)
    decreases program,
{
    if program.len() == 0 {
        (Seq::empty(), Node::Add(0))
    } else {
        let (emitted, pending) = fused(program.drop_last());
        match merged(pending, program.last()) {
            Some(m) => (emitted, m),
            None => match program.last() {
                Node::Loop(body) => {
                    let (inner, last) = fused(body);
                    (emitted.push(pending), Node::Loop(inner.push(last)))
                },
                other => (emitted.push(pending), other),
            },
        }
    }
}

/// The result of the fusing pass: what it emitted, then the last pending
/// node.
pub open spec fn compressed(program: Seq<Node>) -> Seq<Node> {
    fused(program).0.push(fused(program).1)
}

/// Whether a node does nothing: a move by 0 or an add of 0.
pub open spec fn is_noop(node: Node) -> bool {
    node == Node::Move(0) || node == Node::Add(0)
}

/// `program` without the nodes that do nothing, at every depth. A loop
/// stays, whatever is left of its body.
pub open spec fn without_noops(program: Seq<Node>) -> Seq<Node>
    decreases program,
{
    if program.len() == 0 {
        Seq::empty()
    } else {
        let front = without_noops(program.drop_last());
        match program.last() {
            Node::Loop(body) => front.push(Node::Loop(without_noops(body))),
            other => if is_noop(other) {
                front
            } else {
                front.push(other)
            },
        }
    }
}

/// The optimized form of a program: fused, then freed of nodes that do
/// nothing.
pub open spec fn optimized(program: Seq<Node>) -> Seq<Node> {
    without_noops(compressed(program))
}

/// What the second pass leaves of one node: nothing of a node that does
/// nothing, a loop with its body filtered, any other node itself.
pub open spec fn node_without_noops(node: Node) -> Seq<Node> {
    match node {
        Node::Loop(body) => seq![Node::Loop(without_noops(body))],
        other => if is_noop(other) {
            Seq::empty()
        } else {
            seq![other]
        },
    }
}

/// Whether no node of `tree`, at any depth, is a move by 0 or an add of 0.
pub open spec fn clean(tree: Seq<Node>) -> bool
    decreases tree,
{
    if tree.len() == 0 {
        true
    } else {
        &&& clean(tree.drop_last())
        &&& !is_noop(tree.last())
        &&& tree.last() matches Node::Loop(body) ==> clean(body)
    }
}

/// The loops of a tree without what stands between them: each loop node, in
/// order, with the loops of its body.
pub open spec fn loops_of(tree: Seq<Node>) -> Seq<Node>
    decreases tree,
{
    if tree.len() == 0 {
        Seq::empty()
    } else {
        let front = loops_of(tree.drop_last());
        match tree.last() {
            Node::Loop(body) => front.push(Node::Loop(loops_of(body))),
            _ => front,
        }
    }
}

/// The loops of one node: none, or the node itself with the loops of its
/// body.
pub open spec fn node_loops(node: Node) -> Seq<Node> {
    match node {
        Node::Loop(body) => seq![Node::Loop(loops_of(body))],
        _ => Seq::empty(),
    }
}

/// Whether no two neighbours in `tree`, at any depth, would fuse: no move
/// stands next to a move and no add next to an add.
pub open spec fn fusionless(tree: Seq<Node>) -> bool
    decreases tree,
{
    if tree.len() == 0 {
        true
    } else {
        &&& fusionless(tree.drop_last())
        &&& tree.len() >= 2 ==> merged(tree[tree.len() - 2], tree.last()) is None
        &&& tree.last() matches Node::Loop(body) ==> fusionless(body)
    }
}

/// The second pass works node by node.
pub proof fn lemma_without_noops_push(tree: Seq<Node>, node: Node)
    ensures
        without_noops(tree.push(node)) == without_noops(tree) + node_without_noops(node),
{
    assert(tree.push(node).drop_last() =~= tree);
    assert(without_noops(tree.push(node)) =~= without_noops(tree) + node_without_noops(node));
}

/// The loops of a tree with one more node.
pub proof fn lemma_loops_push(tree: Seq<Node>, node: Node)
    ensures
        loops_of(tree.push(node)) == loops_of(tree) + node_loops(node),
{
    assert(tree.push(node).drop_last() =~= tree);
    assert(loops_of(tree.push(node)) =~= loops_of(tree) + node_loops(node));
}

/// The loops and the length of a tree of one node.
pub proof fn lemma_single(node: Node)
    ensures
        loops_of(seq![node]) == node_loops(node),
        flat_len(seq![node]) == node_len(node),
        loops_of(Seq::<Node>::empty()) == Seq::<Node>::empty(),
        flat_len(Seq::<Node>::empty()) == 0,
{
    lemma_loops_push(Seq::empty(), node);
    lemma_flat_len_push(Seq::empty(), node);
    assert(Seq::<Node>::empty().push(node) =~= seq![node]);
    assert(loops_of(Seq::<Node>::empty()) + node_loops(node) =~= node_loops(node));
}

/// The second pass leaves no node that does nothing, keeps every loop, and
/// does not make the compiled program longer.
pub proof fn lemma_without_noops(tree: Seq<Node>)
    ensures
        clean(without_noops(tree)),
        loops_of(without_noops(tree)) == loops_of(tree),
        flat_len(without_noops(tree)) <= flat_len(tree),
    decreases tree,
{
    if tree.len() > 0 {
        let front = tree.drop_last();
        lemma_without_noops(front);
        let kept = without_noops(front);
        match tree.last() {
            Node::Loop(body) => {
                lemma_without_noops(body);
                let node = Node::Loop(without_noops(body));
                assert(kept.push(node).drop_last() =~= kept);
                lemma_flat_len_push(kept, node);
            },
            other => {
                if !is_noop(other) {
                    assert(kept.push(other).drop_last() =~= kept);
                    lemma_flat_len_push(kept, other);
                }
            },
        }
    }
}

/// What the second pass leaves of one node compiles to no more
/// instructions than the node, and holds the node's loops.
pub proof fn lemma_node_without_noops(node: Node)
    ensures
        flat_len(node_without_noops(node)) <= node_len(node),
        node matches Node::Loop(body) ==> flat_len(node_without_noops(node)) == flat_len(
            without_noops(body),
        ) + 2,
        loops_of(node_without_noops(node)) == node_loops(node),
{
    match node {
        Node::Loop(body) => {
            lemma_without_noops(body);
            lemma_single(Node::Loop(without_noops(body)));
        },
        other => {
            lemma_single(other);
        },
    }
}

/// What holds of the first pass at every point: the nodes emitted and the
/// pending node hold the loops read so far, and what the second pass leaves
/// of them compiles to no more instructions than what was read.
pub proof fn lemma_fused_keeps_loops(tree: Seq<Node>)
    ensures
        loops_of(fused(tree).0) + node_loops(fused(tree).1) == loops_of(tree),
        loops_of(compressed(tree)) == loops_of(tree),
        flat_len(without_noops(fused(tree).0)) + flat_len(node_without_noops(fused(tree).1))
            <= flat_len(tree),
        flat_len(optimized(tree)) <= flat_len(tree),
    decreases tree,
{
    let (emitted, pending) = fused(tree);
    lemma_node_without_noops(pending);
    if tree.len() == 0 {
        assert(loops_of(emitted) + node_loops(pending) =~= loops_of(tree));
    } else {
        let front = tree.drop_last();
        let node = tree.last();
        lemma_fused_keeps_loops(front);
        let (before, held) = fused(front);
        lemma_node_without_noops(held);
        assert(front.push(node) =~= tree);
        lemma_loops_push(front, node);
        lemma_flat_len_push(front, node);
        match merged(held, node) {
            Some(m) => {
                assert(emitted == before && pending == m);
                assert(node_loops(m) =~= node_loops(held));
                assert(loops_of(front) + node_loops(node) =~= loops_of(front));
            },
            None => {
                assert(emitted == before.push(held));
                lemma_loops_push(before, held);
                lemma_without_noops_push(before, held);
                lemma_flat_len_append(without_noops(before), node_without_noops(held));
                match node {
                    Node::Loop(body) => {
                        lemma_fused_keeps_loops(body);
                        assert(pending == Node::Loop(compressed(body)));
                    },
                    other => {
                        assert(pending == node);
                    },
                }
            },
        }
    }
    lemma_loops_push(emitted, pending);
    lemma_without_noops_push(emitted, pending);
    lemma_flat_len_append(without_noops(emitted), node_without_noops(pending));
}

/// Every loop of a program is a loop of its optimized form, in the same
/// place among the loops, and the optimized program compiles to no more
/// instructions than the program.
pub proof fn lemma_optimized_keeps_loops(tree: Seq<Node>)
    ensures
        loops_of(optimized(tree)) == loops_of(tree),
        flat_len(optimized(tree)) <= flat_len(tree),
{
    lemma_fused_keeps_loops(tree);
    lemma_without_noops(compressed(tree));
}

/// The optimized form of any program holds no move by 0 and no add of 0,
/// at any depth.
pub proof fn lemma_optimized_clean(tree: Seq<Node>)
    ensures
        clean(optimized(tree)),
{
    lemma_without_noops(compressed(tree));
}

/// A tree that holds no node that does nothing and no two neighbours that
/// would fuse is its own optimized form.
pub proof fn lemma_optimized_fixed(tree: Seq<Node>)
    requires
        clean(tree),
        fusionless(tree),
    ensures
        optimized(tree) == tree,
        tree.len() > 0 ==> without_noops(fused(tree).0) == tree.drop_last()
            && node_without_noops(fused(tree).1) == seq![tree.last()],
    decreases tree,
{
    let (emitted, pending) = fused(tree);
    lemma_without_noops_push(emitted, pending);
    if tree.len() == 0 {
        assert(optimized(tree) =~= tree);
    } else {
        let front = tree.drop_last();
        let node = tree.last();
        lemma_optimized_fixed(front);
        let (before, held) = fused(front);
        if front.len() == 0 {
            assert(held == Node::Add(0));
            assert(without_noops(before) =~= front);
        } else {
            assert(tree[tree.len() - 2] == front.last());
            assert(node_without_noops(held)[0] == front.last());
            assert(merged(held, node) is None);
        }
        match merged(held, node) {
            Some(m) => {
                assert(node matches Node::Add(b) && m == Node::Add(b));
            },
            None => {
                lemma_without_noops_push(before, held);
                assert(without_noops(emitted) =~= front);
                match node {
                    Node::Loop(body) => {
                        lemma_optimized_fixed(body);
                    },
                    _ => {},
                }
            },
        }
        assert(optimized(tree) =~= tree);
    }
}

/// Whether two nodes are of one kind as far as fusing goes: two moves, two
/// adds, or neither of them a move or an add.
pub open spec fn same_kind(a: Node, b: Node) -> bool {
    match a {
        Node::Move(_) => b is Move,
        Node::Add(_) => b is Add,
        _ => !(b is Move) && !(b is Add),
    }
}

/// The first pass leaves no two neighbours that would fuse, at any depth.
pub proof fn lemma_compressed_fusionless(tree: Seq<Node>)
    ensures
        fusionless(compressed(tree)),
        tree.len() > 0 ==> same_kind(fused(tree).1, tree.last()),
    decreases tree,
{
    let (emitted, pending) = fused(tree);
    assert(emitted.push(pending).drop_last() =~= emitted);
    if tree.len() == 0 {
        assert(fusionless(emitted));
    } else {
        let front = tree.drop_last();
        let node = tree.last();
        lemma_compressed_fusionless(front);
        let (before, held) = fused(front);
        assert(before.push(held).drop_last() =~= before);
        match merged(held, node) {
            Some(m) => {},
            None => {
                match node {
                    Node::Loop(body) => {
                        lemma_compressed_fusionless(body);
                    },
                    _ => {},
                }
            },
        }
    }
}

/// A tree whose optimized form compiles to as many instructions as the
/// tree holds no node that does nothing and no two neighbours that would
/// fuse.
pub proof fn lemma_tight(tree: Seq<Node>)
    requires
        flat_len(without_noops(fused(tree).0)) + flat_len(node_without_noops(fused(tree).1))
            == flat_len(tree),
    ensures
        clean(tree),
        fusionless(tree),
    decreases tree,
{
    if tree.len() > 0 {
        let (emitted, pending) = fused(tree);
        let front = tree.drop_last();
        let node = tree.last();
        let (before, held) = fused(front);
        assert(front.push(node) =~= tree);
        lemma_flat_len_push(front, node);
        lemma_fused_keeps_loops(front);
        lemma_node_without_noops(held);
        lemma_node_without_noops(pending);
        match merged(held, node) {
            Some(m) => {
                lemma_single(held);
                lemma_single(m);
                lemma_tight(front);
                lemma_optimized_fixed(front);
                if front.len() > 0 {
                    assert(node_without_noops(held)[0] == front.last());
                }
            },
            None => {
                lemma_without_noops_push(before, held);
                lemma_flat_len_append(without_noops(before), node_without_noops(held));
                match node {
                    Node::Loop(body) => {
                        lemma_fused_keeps_loops(body);
                        let (inner, last) = fused(body);
                        lemma_without_noops_push(inner, last);
                        lemma_flat_len_append(without_noops(inner), node_without_noops(last));
                        lemma_tight(body);
                    },
                    leaf => {
                        lemma_single(leaf);
                    },
                }
                lemma_tight(front);
                lemma_optimized_fixed(front);
                if front.len() > 0 {
                    assert(node_without_noops(held)[0] == front.last());
                    assert(tree[tree.len() - 2] == front.last());
                }
            },
        }
    }
}

/// The trees that the optimizer leaves as they are are those that hold no
/// node that does nothing and no two neighbours that would fuse.
pub proof fn lemma_optimized_fixed_iff(tree: Seq<Node>)
    ensures
        optimized(tree) == tree <==> clean(tree) && fusionless(tree),
{
    if clean(tree) && fusionless(tree) {
        lemma_optimized_fixed(tree);
    }
    if optimized(tree) == tree {
        let (emitted, pending) = fused(tree);
        lemma_without_noops_push(emitted, pending);
        lemma_flat_len_append(without_noops(emitted), node_without_noops(pending));
        lemma_tight(tree);
    }
}

/// Optimizing a second time changes nothing if, and only if, the first
/// time left no two neighbours that would fuse. (It can leave such: where
/// the nodes between two moves cancel out, the second pass removes them
/// and the moves meet.)
pub proof fn lemma_optimize_idempotent(tree: Seq<Node>)
    ensures
        optimized(optimized(tree)) == optimized(tree) <==> fusionless(optimized(tree)),
{
    lemma_optimized_clean(tree);
    lemma_optimized_fixed_iff(optimized(tree));
}

/// Fuses `current` into `pending` where the two are moves or the two are
/// adds.
fn merge(pending: &Expr, current: &Expr) -> (m: Option<Expr>)
    ensures
        m is Some <==> merged(node_of(*pending), node_of(*current)) is Some,
        m matches Some(e) ==> Some(node_of(e)) == merged(node_of(*pending), node_of(*current)),
{
    match pending {
        Expr::Move(a) => match current {
            Expr::Move(b) => Some(Expr::Move(a.wrapping_add(*b))),
            _ => None,
        },
        Expr::Add(a) => match current {
            Expr::Add(b) => Some(Expr::Add(a.wrapping_add(*b))),
            _ => None,
        },
        _ => None,
    }
}

/// Compresses repeated additions or moves into a single operation, inside
/// loop bodies too. The first node of the result is the `Add` that the pass
/// starts from, fused with any adds at the start of `program`.
pub fn compress_repeated(program: &[Expr]) -> (result: Vec<Expr>)
    ensures
        result.deep_view() == compressed(program.deep_view()),
        fusionless(result.deep_view()),
    decreases program@,
{
    let ghost tree = nodes_of(program@);
    proof {
        lemma_compressed_fusionless(program.deep_view());
    }
    let mut emitted: Vec<Expr> = Vec::new();
    let mut pending = Expr::Add(0);
    let mut i: usize = 0;
    proof {
        assert(tree.take(0) =~= Seq::empty());
        assert(nodes_of(emitted@) =~= Seq::empty());
    }
    while i < program.len()
        invariant
            i <= program.len(),
            tree == nodes_of(program@),
            nodes_of(emitted@) == fused(tree.take(i as int)).0,
            node_of(pending) == fused(tree.take(i as int)).1,
        decreases program.len() - i,
    {
        let current = &program[i];
        proof {
            lemma_view_take(program@, i as int);
        }
        match merge(&pending, current) {
            Some(m) => {
                pending = m;
            },
            None => {
                let next = match current {
                    Expr::Move(n) => Expr::Move(*n),
                    Expr::Add(n) => Expr::Add(*n),
                    Expr::Output => Expr::Output,
                    Expr::Input => Expr::Input,
                    Expr::Loop(body) => {
                        let slice = body.as_slice();
                        let inner = compress_repeated(slice);
                        proof {
                            lemma_view_loop(*body);
                            lemma_view_loop(inner);
                            assert(slice.deep_view() =~= nodes_of(body@));
                        }
                        Expr::Loop(inner)
                    },
                };
                proof {
                    lemma_view_push(emitted@, pending);
                }
                emitted.push(pending);
                pending = next;
            },
        }
        i += 1;
    }
    proof {
        assert(tree.take(i as int) == tree);
        lemma_view_push(emitted@, pending);
        assert(program.deep_view() =~= tree);
    }
    emitted.push(pending);
    proof {
        assert(emitted.deep_view() =~= nodes_of(emitted@));
    }
    emitted
}

/// Removes every move by 0 and every add of 0, inside loop bodies too. A
/// loop is kept even if its body becomes empty.
pub fn filter_noops(program: Vec<Expr>) -> (result: Vec<Expr>)
    ensures
        result.deep_view() == without_noops(program.deep_view()),
        clean(result.deep_view()),
        loops_of(result.deep_view()) == loops_of(program.deep_view()),
    decreases program@,
{
    let ghost tree = nodes_of(program@);
    proof {
        lemma_without_noops(program.deep_view());
    }
    let mut kept: Vec<Expr> = Vec::new();
    proof {
        assert(tree.take(0) =~= Seq::empty());
        assert(nodes_of(kept@) =~= Seq::empty());
    }
    for e in it: program
        invariant
            it.seq() == program@,
            tree == nodes_of(program@),
            nodes_of(kept@) == without_noops(tree.take(it.index() as int)),
    {
        proof {
            lemma_view_take(program@, it.index() as int);
        }
        match e {
            Expr::Move(n) => {
                if n != 0 {
                    proof {
                        lemma_view_push(kept@, Expr::Move(n));
                    }
                    kept.push(Expr::Move(n));
                }
            },
            Expr::Add(n) => {
                if n != 0 {
                    proof {
                        lemma_view_push(kept@, Expr::Add(n));
                    }
                    kept.push(Expr::Add(n));
                }
            },
            Expr::Loop(body) => {
                proof {
                    lemma_view_loop(body);
                }
                let inner = filter_noops(body);
                proof {
                    lemma_view_loop(inner);
                    lemma_view_push(kept@, Expr::Loop(inner));
                }
                kept.push(Expr::Loop(inner));
            },
            other => {
                proof {
                    lemma_view_push(kept@, other);
                }
                kept.push(other);
            },
        }
    }
    proof {
        assert(tree.take(program@.len() as int) == tree);
        assert(program.deep_view() =~= tree);
        assert(kept.deep_view() =~= nodes_of(kept@));
    }
    kept
}

/// Optimizes a program tree: fuses runs of moves and runs of adds, then
/// drops the nodes that do nothing.
pub fn optimize(program: &[Expr]) -> (result: Vec<Expr>)
    ensures
        result.deep_view() == optimized(program.deep_view()),
        clean(result.deep_view()),
        loops_of(result.deep_view()) == loops_of(program.deep_view()),
        flat_len(result.deep_view()) <= flat_len(program.deep_view()),
{
    proof {
        lemma_optimized_clean(program.deep_view());
        lemma_optimized_keeps_loops(program.deep_view());
    }
    let compressed = compress_repeated(program);
    filter_noops(compressed)
}

} // verus!
