//! The optimizer preserves what a program does: the optimized program reads
//! and writes what the program reads and writes, unless the program comes
//! to access a cell left of the tape.

use vstd::prelude::*;
use vstd::arithmetic::div_mod::lemma_add_mod_noop_right;
use vstd::arithmetic::div_mod::lemma_mod_multiples_vanish;
use crate::parse::Node;
use crate::interp::Outcome;
use crate::interp::Run;
use crate::interp::initial_state;
use crate::interp::run_spec;
use crate::compile::compiled;
use crate::compile::flat_len;
use crate::compile::lemma_compiled_len;
use crate::optimize::lemma_optimized_keeps_loops;
use crate::semantics::after;
use crate::semantics::ending;
use crate::semantics::placed;
use crate::semantics::lemma_after_add;
use crate::semantics::lemma_after_stuck;
use crate::semantics::lemma_output_grows;
use crate::semantics::lemma_run_from_after;
use crate::semantics::lemma_sim_seq;
use crate::interp::cell_sum;
use crate::interp::grown;
use crate::interp::lemma_grown;
use crate::optimize::compressed;
use crate::optimize::fused;
use crate::optimize::is_noop;
use crate::optimize::merged;
use crate::optimize::optimized;
use crate::optimize::without_noops;
use crate::optimize::node_without_noops;
use crate::optimize::lemma_without_noops_push;
use crate::semantics::Fate;
use crate::semantics::Store;
use crate::semantics::exec_leaf;
use crate::semantics::exec_loop;
use crate::semantics::exec_node;
use crate::semantics::exec_seq;
use crate::semantics::lemma_exec_push;
use crate::semantics::left;
use crate::semantics::lemma_loop_output;
use crate::semantics::lemma_node_output;
use crate::semantics::lemma_prefix_trans;

verus! {

/// The cell at index `i` of a tape that is thought to go on with zero cells
/// for ever.
pub open spec fn cell_at(cells: Seq<u8>, i: int) -> u8 {
    if 0 <= i < cells.len() {
        cells[i]
    } else {
        0
    }
}

/// Whether two tapes hold the same cells, but for zero cells at the end of
/// one of them.
pub open spec fn same_tape(a: Seq<u8>, b: Seq<u8>) -> bool {
    forall|i: int| #[trigger] cell_at(a, i) == cell_at(b, i)
}

/// Whether two stores differ at most in how far their tapes have grown.
pub open spec fn alike(a: Store, b: Store) -> bool {
    &&& a.pos == b.pos
    &&& a.consumed == b.consumed
    &&& a.output == b.output
    &&& same_tape(a.cells, b.cells)
}

/// Whether an execution that ends as `better` does what one that ends as
/// `plain` does: it ends the same way with a like store, unless `plain` is
/// a failed access left of the tape. After that `better` may go on, but
/// what it has output begins with what `plain` has output.
pub open spec fn follows(better: Fate, plain: Fate) -> bool {
    match plain {
        Fate::Done(b) => better matches Fate::Done(a) && alike(a, b),
        Fate::Failed(outcome, b) => if outcome == Outcome::OutOfBounds {
            b.output.is_prefix_of(left(better).output)
        } else {
            better matches Fate::Failed(o, a) && o == outcome && alike(a, b)
        },
        Fate::Tired(b) => better matches Fate::Tired(a) && alike(a, b),
    }
}

/// Growing a tape for an access changes no cell.
pub proof fn lemma_grown_same(cells: Seq<u8>, pos: int)
    requires
        0 <= pos,
    ensures
        same_tape(grown(cells, pos), cells),
        grown(cells, pos)[pos] == cell_at(cells, pos),
        pos < grown(cells, pos).len(),
{
    lemma_grown(cells, pos);
    let g = grown(cells, pos);
    assert forall|i: int| #[trigger] cell_at(g, i) == cell_at(cells, i) by {
        if 0 <= i < cells.len() {
            assert(g.take(cells.len() as int)[i] == g[i]);
        }
    }
    assert(cell_at(g, pos) == cell_at(cells, pos));
}

/// Writing the same value at the same place of two like tapes, each grown
/// for the access, leaves like tapes.
pub proof fn lemma_update_same(a: Seq<u8>, b: Seq<u8>, pos: int, value: u8)
    requires
        0 <= pos,
        same_tape(a, b),
    ensures
        same_tape(grown(a, pos).update(pos, value), grown(b, pos).update(pos, value)),
        grown(a, pos)[pos] == grown(b, pos)[pos],
{
    lemma_grown_same(a, pos);
    lemma_grown_same(b, pos);
    let x = grown(a, pos).update(pos, value);
    let y = grown(b, pos).update(pos, value);
    assert(cell_at(a, pos) == cell_at(b, pos));
    assert forall|i: int| #[trigger] cell_at(x, i) == cell_at(y, i) by {
        assert(cell_at(grown(a, pos), i) == cell_at(a, i));
        assert(cell_at(grown(b, pos), i) == cell_at(b, i));
        assert(cell_at(a, i) == cell_at(b, i));
    }
}

/// `follows` is transitive, and every fate follows itself.
pub proof fn lemma_follows_trans(x: Fate, y: Fate, z: Fate)
    requires
        follows(x, y),
        follows(y, z),
    ensures
        follows(x, z),
        follows(x, x),
{
    let (a, b, c) = (left(x), left(y), left(z));
    if z is Failed && z->Failed_0 == Outcome::OutOfBounds {
        if y is Failed && y->Failed_0 == Outcome::OutOfBounds {
            lemma_prefix_trans(c.output, b.output, a.output);
        }
    } else {
        assert forall|i: int| #[trigger] cell_at(a.cells, i) == cell_at(c.cells, i) by {
            assert(cell_at(a.cells, i) == cell_at(b.cells, i));
        }
    }
}

/// A node other than a loop does the same to like stores.
pub proof fn lemma_leaf_alike(node: Node, a: Store, b: Store, input: Seq<u8>)
    requires
        alike(a, b),
        !(node is Loop),
    ensures
        follows(exec_leaf(node, a, input), exec_leaf(node, b, input)),
{
    if a.pos >= 0 {
        lemma_grown_same(a.cells, a.pos as int);
        lemma_grown_same(b.cells, a.pos as int);
        let cell = grown(a.cells, a.pos as int)[a.pos as int];
        assert(cell == grown(b.cells, a.pos as int)[a.pos as int]);
        match node {
            Node::Add(n) => {
                lemma_update_same(a.cells, b.cells, a.pos as int, cell_sum(cell, n));
            },
            Node::Input => {
                if a.consumed < input.len() {
                    lemma_update_same(a.cells, b.cells, a.pos as int, input[a.consumed as int]);
                }
            },
            Node::Output => {
                assert forall|i: int| #[trigger]
                    cell_at(grown(a.cells, a.pos as int), i) == cell_at(
                        grown(b.cells, a.pos as int),
                        i,
                    ) by {
                    assert(cell_at(a.cells, i) == cell_at(b.cells, i));
                }
            },
            _ => {},
        }
    }
}

/// A node that does nothing does nothing, unless it fails.
pub proof fn lemma_noop_alike(node: Node, a: Store, b: Store, input: Seq<u8>)
    requires
        alike(a, b),
        is_noop(node),
    ensures
        follows(Fate::Done(a), exec_leaf(node, b, input)),
{
    if b.pos >= 0 {
        lemma_grown_same(b.cells, b.pos as int);
        let g = grown(b.cells, b.pos as int);
        assert(cell_sum(g[b.pos as int], 0) == g[b.pos as int]);
        assert(g.update(b.pos as int, g[b.pos as int]) =~= g);
        assert forall|i: int| #[trigger] cell_at(a.cells, i) == cell_at(g, i) by {
            assert(cell_at(a.cells, i) == cell_at(b.cells, i));
        }
    }
}

/// Adding twice to a cell is adding the wrapped sum once.
pub proof fn lemma_cell_sum_twice(cell: u8, x: i32, y: i32)
    ensures
        cell_sum(cell_sum(cell, x), y) == cell_sum(cell, x.wrapping_add(y)),
{
    let c = cell as int;
    let wrapped = x.wrapping_add(y) as int;
    let turns: int = if x + y > i32::MAX {
        -1
    } else if x + y < i32::MIN {
        1
    } else {
        0
    };
    assert(wrapped == x + y + turns * 0x1_0000_0000);
    assert((c + wrapped) % 256 == (c + x + y) % 256) by {
        lemma_mod_multiples_vanish(turns * 0x100_0000, c + x + y, 256);
        assert(256 * (turns * 0x100_0000) + (c + x + y) == c + wrapped);
    }
    assert((((c + x) % 256) + y) % 256 == (c + x + y) % 256) by {
        lemma_add_mod_noop_right(y as int, c + x, 256);
        assert(y + (c + x) == c + x + y);
        assert(y + ((c + x) % 256) == ((c + x) % 256) + y);
    }
}

/// The fusion of two neighbours does what the two do one after the other.
pub proof fn lemma_merged_exec(first: Node, second: Node, st: Store, input: Seq<u8>)
    requires
        merged(first, second) is Some,
    ensures
        exec_leaf(merged(first, second)->Some_0, st, input) == match exec_leaf(first, st, input) {
            Fate::Done(mid) => exec_leaf(second, mid, input),
            other => other,
        },
{
    match (first, second) {
        (Node::Add(x), Node::Add(y)) => {
            if st.pos >= 0 {
                lemma_grown(st.cells, st.pos as int);
                let g = grown(st.cells, st.pos as int);
                let p = st.pos as int;
                let once = g.update(p, cell_sum(g[p], x));
                assert(grown(once, p) == once);
                lemma_cell_sum_twice(g[p], x, y);
                assert(once.update(p, cell_sum(once[p], y)) =~= g.update(
                    p,
                    cell_sum(g[p], x.wrapping_add(y)),
                ));
            }
        },
        _ => {},
    }
}

/// Without its nodes that do nothing, a tree does what it did.
pub proof fn lemma_filter_seq(tree: Seq<Node>, a: Store, b: Store, input: Seq<u8>, fuel: nat)
    requires
        alike(a, b),
    ensures
        follows(exec_seq(without_noops(tree), a, input, fuel), exec_seq(tree, b, input, fuel)),
    decreases fuel, tree, 0int,
{
    if tree.len() > 0 {
        let front = tree.drop_last();
        let node = tree.last();
        assert(front.push(node) =~= tree);
        lemma_filter_seq(front, a, b, input, fuel);
        lemma_exec_push(front, node, b, input, fuel);
        lemma_without_noops_push(front, node);
        let better = exec_seq(without_noops(front), a, input, fuel);
        let plain = exec_seq(front, b, input, fuel);
        if let Fate::Done(mid_a) = better {
            if plain is Failed {
                let kept = node_without_noops(node);
                if kept.len() > 0 {
                    lemma_node_output(kept[0], mid_a, input, fuel);
                    lemma_prefix_trans(
                        left(plain).output,
                        mid_a.output,
                        left(exec_node(kept[0], mid_a, input, fuel)).output,
                    );
                }
            }
        }
        match node {
            Node::Loop(body) => {
                let kept = Node::Loop(without_noops(body));
                assert(without_noops(tree) =~= without_noops(front).push(kept));
                lemma_exec_push(without_noops(front), kept, a, input, fuel);
                if let Fate::Done(mid_b) = plain {
                    let mid_a = better->Done_0;
                    lemma_filter_loop(body, mid_a, mid_b, input, fuel);
                }
            },
            leaf => {
                if is_noop(leaf) {
                    assert(without_noops(tree) =~= without_noops(front));
                    if let Fate::Done(mid_b) = plain {
                        lemma_noop_alike(leaf, better->Done_0, mid_b, input);
                    }
                } else {
                    assert(without_noops(tree) =~= without_noops(front).push(leaf));
                    lemma_exec_push(without_noops(front), leaf, a, input, fuel);
                    if let Fate::Done(mid_b) = plain {
                        lemma_leaf_alike(leaf, better->Done_0, mid_b, input);
                    }
                }
            },
        }
    }
}

/// Without the nodes of its body that do nothing, a loop does what it did.
pub proof fn lemma_filter_loop(body: Seq<Node>, a: Store, b: Store, input: Seq<u8>, fuel: nat)
    requires
        alike(a, b),
    ensures
        follows(
            exec_loop(without_noops(body), a, input, fuel),
            exec_loop(body, b, input, fuel),
        ),
    decreases fuel, body, 1int,
{
    if a.pos >= 0 {
        let p = a.pos as int;
        lemma_grown_same(a.cells, p);
        lemma_grown_same(b.cells, p);
        let awake_a = Store { cells: grown(a.cells, p), ..a };
        let awake_b = Store { cells: grown(b.cells, p), ..b };
        assert(cell_at(a.cells, p) == cell_at(b.cells, p));
        assert forall|i: int| #[trigger] cell_at(awake_a.cells, i) == cell_at(awake_b.cells, i) by {
            assert(cell_at(a.cells, i) == cell_at(b.cells, i));
        }
        if awake_a.cells[p] != 0 && fuel > 0 {
            lemma_filter_seq(body, awake_a, awake_b, input, (fuel - 1) as nat);
            let better = exec_seq(without_noops(body), awake_a, input, (fuel - 1) as nat);
            let plain = exec_seq(body, awake_b, input, (fuel - 1) as nat);
            if let Fate::Done(next_b) = plain {
                lemma_filter_loop(body, better->Done_0, next_b, input, (fuel - 1) as nat);
            } else if let Fate::Done(next_a) = better {
                lemma_loop_output(without_noops(body), next_a, input, (fuel - 1) as nat);
                lemma_prefix_trans(
                    left(plain).output,
                    next_a.output,
                    left(exec_loop(without_noops(body), next_a, input, (fuel - 1) as nat)).output,
                );
            }
        }
    }
}

/// With its runs fused, a tree does what it did, if it starts on the tape.
pub proof fn lemma_compress_seq(tree: Seq<Node>, a: Store, b: Store, input: Seq<u8>, fuel: nat)
    requires
        alike(a, b),
        a.pos >= 0,
    ensures
        follows(exec_seq(compressed(tree), a, input, fuel), exec_seq(tree, b, input, fuel)),
    decreases fuel, tree, 0int,
{
    let (emitted, pending) = fused(tree);
    lemma_exec_push(emitted, pending, a, input, fuel);
    if tree.len() == 0 {
        assert(emitted.len() == 0);
        lemma_noop_alike(pending, b, b, input);
        lemma_leaf_alike(pending, a, b, input);
        lemma_follows_trans(
            exec_leaf(pending, a, input),
            exec_leaf(pending, b, input),
            Fate::Done(b),
        );
    } else {
        let front = tree.drop_last();
        let node = tree.last();
        assert(front.push(node) =~= tree);
        lemma_compress_seq(front, a, b, input, fuel);
        lemma_exec_push(front, node, b, input, fuel);
        let (before, held) = fused(front);
        lemma_exec_push(before, held, a, input, fuel);
        let better = exec_seq(before.push(held), a, input, fuel);
        let plain = exec_seq(front, b, input, fuel);
        if let Fate::Done(mid_a) = better {
            if plain is Failed {
                let next = if merged(held, node) is Some {
                    node
                } else {
                    pending
                };
                lemma_node_output(next, mid_a, input, fuel);
                lemma_prefix_trans(
                    left(plain).output,
                    mid_a.output,
                    left(exec_node(next, mid_a, input, fuel)).output,
                );
            }
        }
        match merged(held, node) {
            Some(m) => {
                assert(emitted == before && pending == m);
                if let Fate::Done(start) = exec_seq(before, a, input, fuel) {
                    lemma_merged_exec(held, node, start, input);
                }
                if let Fate::Done(mid_b) = plain {
                    lemma_leaf_alike(node, better->Done_0, mid_b, input);
                }
            },
            None => {
                assert(emitted == before.push(held));
                if let Fate::Done(mid_b) = plain {
                    let mid_a = better->Done_0;
                    match node {
                        Node::Loop(body) => {
                            lemma_compress_loop(body, mid_a, mid_b, input, fuel);
                        },
                        leaf => {
                            lemma_leaf_alike(leaf, mid_a, mid_b, input);
                        },
                    }
                }
            },
        }
    }
}

/// With the runs of its body fused, a loop does what it did.
pub proof fn lemma_compress_loop(body: Seq<Node>, a: Store, b: Store, input: Seq<u8>, fuel: nat)
    requires
        alike(a, b),
    ensures
        follows(exec_loop(compressed(body), a, input, fuel), exec_loop(body, b, input, fuel)),
    decreases fuel, body, 1int,
{
    if a.pos >= 0 {
        let p = a.pos as int;
        lemma_grown_same(a.cells, p);
        lemma_grown_same(b.cells, p);
        let awake_a = Store { cells: grown(a.cells, p), ..a };
        let awake_b = Store { cells: grown(b.cells, p), ..b };
        assert(cell_at(a.cells, p) == cell_at(b.cells, p));
        assert forall|i: int| #[trigger] cell_at(awake_a.cells, i) == cell_at(awake_b.cells, i) by {
            assert(cell_at(a.cells, i) == cell_at(b.cells, i));
        }
        if awake_a.cells[p] != 0 && fuel > 0 {
            lemma_compress_seq(body, awake_a, awake_b, input, (fuel - 1) as nat);
            let better = exec_seq(compressed(body), awake_a, input, (fuel - 1) as nat);
            let plain = exec_seq(body, awake_b, input, (fuel - 1) as nat);
            if let Fate::Done(next_b) = plain {
                lemma_compress_loop(body, better->Done_0, next_b, input, (fuel - 1) as nat);
            } else if let Fate::Done(next_a) = better {
                lemma_loop_output(compressed(body), next_a, input, (fuel - 1) as nat);
                lemma_prefix_trans(
                    left(plain).output,
                    next_a.output,
                    left(exec_loop(compressed(body), next_a, input, (fuel - 1) as nat)).output,
                );
            }
        }
    }
}

/// The optimized form of a tree does what the tree does, if it starts on
/// the tape: from like stores the two end the same way with like stores,
/// unless the tree comes to access a cell left of the tape.
pub proof fn lemma_optimized_follows(
    tree: Seq<Node>,
    a: Store,
    b: Store,
    input: Seq<u8>,
    fuel: nat,
)
    requires
        alike(a, b),
        a.pos >= 0,
    ensures
        follows(exec_seq(optimized(tree), a, input, fuel), exec_seq(tree, b, input, fuel)),
{
    lemma_filter_seq(compressed(tree), a, a, input, fuel);
    lemma_compress_seq(tree, a, b, input, fuel);
    lemma_follows_trans(
        exec_seq(optimized(tree), a, input, fuel),
        exec_seq(compressed(tree), a, input, fuel),
        exec_seq(tree, b, input, fuel),
    );
}

/// The store of a machine at the start of a run.
pub open spec fn fresh() -> Store {
    Store {
        pos: initial_state().pos,
        cells: initial_state().cells,
        consumed: 0,
        output: Seq::empty(),
    }
}

/// The store that a run has left.
pub open spec fn store_of(run: Run) -> Store {
    Store {
        pos: run.state.pos,
        cells: run.state.cells,
        consumed: run.consumed,
        output: run.output,
    }
}

/// Whether a run ends as `fate` says, with the store that it says.
pub open spec fn ends_as(run: Run, fate: Fate) -> bool {
    match fate {
        Fate::Done(end) => run.outcome == Outcome::Halted && store_of(run) == end,
        Fate::Failed(outcome, end) => run.outcome == outcome && outcome != Outcome::OutOfSteps
            && store_of(run) == end,
        Fate::Tired(_) => false,
    }
}

/// A run of a compiled tree that ends within `steps` steps ends as the
/// tree prescribes.
pub proof fn lemma_run_ends_as_tree(tree: Seq<Node>, input: Seq<u8>, steps: nat)
    requires
        flat_len(tree) <= usize::MAX,
        run_spec(compiled(tree, 0), input, steps).outcome != Outcome::OutOfSteps,
    ensures
        ends_as(
            run_spec(compiled(tree, 0), input, steps),
            exec_seq(tree, fresh(), input, steps + 1),
        ),
{
    let program = compiled(tree, 0);
    lemma_compiled_len(tree, 0);
    assert(program.subrange(0, program.len() as int) =~= program);
    let k = lemma_sim_seq(program, input, tree, 0, fresh(), steps + 1);
    lemma_run_from_after(program, input, 0, fresh(), steps);
    let (ip, st) = after(program, input, 0, fresh(), steps);
    if k >= steps {
        lemma_after_add(program, input, 0, fresh(), steps, (k - steps) as nat);
        lemma_after_stuck(program, input, ip, st, (k - steps) as nat);
    } else {
        let (ip1, st1) = after(program, input, 0, fresh(), k);
        lemma_after_add(program, input, 0, fresh(), k, (steps - k) as nat);
        lemma_after_stuck(program, input, ip1, st1, (steps - k) as nat);
    }
}

/// What a tree prescribes, its compiled form does within some number of
/// steps.
pub proof fn lemma_tree_ends_as_run(tree: Seq<Node>, input: Seq<u8>, fuel: nat) -> (steps: nat)
    requires
        flat_len(tree) <= usize::MAX,
        !(exec_seq(tree, fresh(), input, fuel) is Tired),
    ensures
        ends_as(run_spec(compiled(tree, 0), input, steps), exec_seq(tree, fresh(), input, fuel)),
{
    let program = compiled(tree, 0);
    lemma_compiled_len(tree, 0);
    assert(program.subrange(0, program.len() as int) =~= program);
    let k = lemma_sim_seq(program, input, tree, 0, fresh(), fuel);
    lemma_run_from_after(program, input, 0, fresh(), k);
    k
}

/// Whether two runs have ended the same way, with the same output, after
/// reading the same input, and with tapes that hold the same cells.
pub open spec fn same_result(better: Run, plain: Run) -> bool {
    &&& better.outcome == plain.outcome
    &&& better.output == plain.output
    &&& better.consumed == plain.consumed
    &&& better.state.pos == plain.state.pos
    &&& same_tape(better.state.cells, plain.state.cells)
}

/// Where a program, compiled as it is, halts or runs out of input, its
/// optimized form, compiled, does the same within some number of steps:
/// it ends the same way, having read and written the same bytes.
pub proof fn lemma_optimized_run(tree: Seq<Node>, input: Seq<u8>, steps: nat) -> (enough: nat)
    requires
        flat_len(tree) <= usize::MAX,
        run_spec(compiled(tree, 0), input, steps).outcome == Outcome::Halted || run_spec(
            compiled(tree, 0),
            input,
            steps,
        ).outcome == Outcome::InputExhausted,
    ensures
        same_result(
            run_spec(compiled(optimized(tree), 0), input, enough),
            run_spec(compiled(tree, 0), input, steps),
        ),
{
    lemma_run_ends_as_tree(tree, input, steps);
    lemma_optimized_follows(tree, fresh(), fresh(), input, steps + 1);
    lemma_optimized_keeps_loops(tree);
    lemma_tree_ends_as_run(optimized(tree), input, steps + 1)
}

/// Where the optimized form of a program, compiled, comes to an end, the
/// program, compiled as it is, comes to an end within some number of
/// steps: to the same end, having read and written the same bytes, or to
/// an access left of the tape.
pub proof fn lemma_plain_run(tree: Seq<Node>, input: Seq<u8>, steps: nat) -> (enough: nat)
    requires
        flat_len(tree) <= usize::MAX,
        run_spec(compiled(optimized(tree), 0), input, steps).outcome != Outcome::OutOfSteps,
    ensures
        run_spec(compiled(tree, 0), input, enough).outcome == Outcome::OutOfBounds || same_result(
            run_spec(compiled(optimized(tree), 0), input, steps),
            run_spec(compiled(tree, 0), input, enough),
        ),
{
    lemma_optimized_keeps_loops(tree);
    lemma_run_ends_as_tree(optimized(tree), input, steps);
    lemma_optimized_follows(tree, fresh(), fresh(), input, steps + 1);
    lemma_tree_ends_as_run(tree, input, steps + 1)
}

/// Whatever a program, compiled as it is, has output after `steps` steps,
/// its optimized form, compiled, has output after some number of steps, and
/// in the same order. This holds of every run: of one that never ends, and
/// of one that fails.
pub proof fn lemma_optimized_output(tree: Seq<Node>, input: Seq<u8>, steps: nat) -> (enough: nat)
    requires
        flat_len(tree) <= usize::MAX,
    ensures
        run_spec(compiled(tree, 0), input, steps).output.is_prefix_of(
            run_spec(compiled(optimized(tree), 0), input, enough).output,
        ),
{
    let fuel = steps + 1;
    let plain = compiled(tree, 0);
    let better = compiled(optimized(tree), 0);
    lemma_optimized_keeps_loops(tree);
    lemma_optimized_follows(tree, fresh(), fresh(), input, fuel);
    lemma_compiled_len(tree, 0);
    lemma_compiled_len(optimized(tree), 0);
    assert(plain.subrange(0, plain.len() as int) =~= plain);
    assert(better.subrange(0, better.len() as int) =~= better);
    let kp = lemma_sim_seq(plain, input, tree, 0, fresh(), fuel);
    let kb = lemma_sim_seq(better, input, optimized(tree), 0, fresh(), fuel);
    lemma_run_from_after(plain, input, 0, fresh(), steps);
    lemma_run_from_after(better, input, 0, fresh(), kb);
    let (ip, st) = after(plain, input, 0, fresh(), steps);
    let end = left(exec_seq(tree, fresh(), input, fuel));
    let end_better = left(exec_seq(optimized(tree), fresh(), input, fuel));
    assert(after(plain, input, 0, fresh(), kp).1 == end);
    assert(after(better, input, 0, fresh(), kb).1 == end_better);
    if kp >= steps {
        lemma_after_add(plain, input, 0, fresh(), steps, (kp - steps) as nat);
        lemma_output_grows(plain, input, ip, st, (kp - steps) as nat);
    } else {
        let (ip1, st1) = after(plain, input, 0, fresh(), kp);
        lemma_after_add(plain, input, 0, fresh(), kp, (steps - kp) as nat);
        lemma_after_stuck(plain, input, ip1, st1, (steps - kp) as nat);
    }
    assert(st.output.is_prefix_of(end.output));
    assert(end.output.is_prefix_of(end_better.output));
    lemma_prefix_trans(st.output, end.output, end_better.output);
    kb
}

/// Whatever the optimized form of a program, compiled, has output after
/// `steps` steps, the program, compiled as it is, has output after some
/// number of steps, and in the same order, unless it comes to access a cell
/// left of the tape. This holds of runs that never end, too.
pub proof fn lemma_plain_output(tree: Seq<Node>, input: Seq<u8>, steps: nat) -> (enough: nat)
    requires
        flat_len(tree) <= usize::MAX,
    ensures
        run_spec(compiled(tree, 0), input, enough).outcome == Outcome::OutOfBounds || run_spec(
            compiled(optimized(tree), 0),
            input,
            steps,
        ).output.is_prefix_of(run_spec(compiled(tree, 0), input, enough).output),
{
    let fuel = steps + 1;
    let plain = compiled(tree, 0);
    let better = compiled(optimized(tree), 0);
    lemma_optimized_keeps_loops(tree);
    lemma_optimized_follows(tree, fresh(), fresh(), input, fuel);
    lemma_compiled_len(tree, 0);
    lemma_compiled_len(optimized(tree), 0);
    assert(plain.subrange(0, plain.len() as int) =~= plain);
    assert(better.subrange(0, better.len() as int) =~= better);
    let kp = lemma_sim_seq(plain, input, tree, 0, fresh(), fuel);
    let kb = lemma_sim_seq(better, input, optimized(tree), 0, fresh(), fuel);
    lemma_run_from_after(better, input, 0, fresh(), steps);
    lemma_run_from_after(better, input, 0, fresh(), kb);
    lemma_run_from_after(plain, input, 0, fresh(), kp);
    let (ip, st) = after(better, input, 0, fresh(), steps);
    if kb >= steps {
        lemma_after_add(better, input, 0, fresh(), steps, (kb - steps) as nat);
        lemma_output_grows(better, input, ip, st, (kb - steps) as nat);
    } else {
        let (ip1, st1) = after(better, input, 0, fresh(), kb);
        lemma_after_add(better, input, 0, fresh(), kb, (steps - kb) as nat);
        lemma_after_stuck(better, input, ip1, st1, (steps - kb) as nat);
    }
    kp
}

} // verus!
