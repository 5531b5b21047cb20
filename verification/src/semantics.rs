//! What a program means, stated twice and connected: as the machine runs
//! its compiled form step by step, and as the tree itself prescribes, loop
//! inside loop.

use vstd::prelude::*;
use crate::parse::Node;
use crate::compile::Instruction;
use crate::compile::compiled;
use crate::compile::compiled_node;
use crate::compile::flat_len;
use crate::compile::framed;
use crate::compile::node_len;
use crate::compile::lemma_compiled_len;
use crate::interp::lemma_grown;
use crate::interp::Effect;
use crate::interp::Outcome;
use crate::interp::Run;
use crate::interp::State;
use crate::interp::grown;
use crate::interp::next_byte;
use crate::interp::run_from;
use crate::interp::run_spec;
use crate::interp::initial_state;
use crate::interp::step_spec;

verus! {

/// Everything a run has changed but the program position: the tape and its
/// position, how much input was read, and what was output.
pub struct Store {
    pub pos: i32,
    pub cells: Seq<u8>,
    pub consumed: nat,
    pub output: Seq<u8>,
}

/// One step of the machine together with its input and output: the new
/// program position and store, and the step's effect.
pub open spec fn transition(program: Seq<Instruction>, input: Seq<u8>, ip: int, st: Store) -> (
    int,
    Store,
    Effect,
) {
    let (next, effect) = step_spec(
        program,
        State { ip, pos: st.pos, cells: st.cells },
        next_byte(input, st.consumed),
    );
    (
        next.ip,
        Store {
            pos: next.pos,
            cells: next.cells,
            consumed: if effect is Consumed {
                st.consumed + 1
            } else {
                st.consumed
            },
            output: if let Effect::Output(byte) = effect {
                st.output.push(byte)
            } else {
                st.output
            },
        },
        effect,
    )
}

/// Where the machine stands after `k` steps. Once it cannot step, it stays
/// where it is.
pub open spec fn after(program: Seq<Instruction>, input: Seq<u8>, ip: int, st: Store, k: nat) -> (
    int,
    Store,
)
    decreases k,
{
    if k == 0 {
        (ip, st)
    } else {
        let (ip1, st1, effect) = transition(program, input, ip, st);
        after(program, input, ip1, st1, (k - 1) as nat)
    }
}

/// How a run that has come to `ip` and `st` ends there, if it is given no
/// further step.
pub open spec fn ending(program: Seq<Instruction>, input: Seq<u8>, ip: int, st: Store) -> Outcome {
    match transition(program, input, ip, st).2 {
        Effect::Halted => Outcome::Halted,
        Effect::NeedInput => Outcome::InputExhausted,
        Effect::OutOfBounds => Outcome::OutOfBounds,
        _ => Outcome::OutOfSteps,
    }
}

/// The run that ends at `ip` and `st`.
pub open spec fn run_at(program: Seq<Instruction>, input: Seq<u8>, ip: int, st: Store) -> Run {
    Run {
        outcome: ending(program, input, ip, st),
        state: State { ip, pos: st.pos, cells: st.cells },
        consumed: st.consumed,
        output: st.output,
    }
}

/// A bounded run ends where the machine stands after that many steps.
pub proof fn lemma_run_from_after(
    program: Seq<Instruction>,
    input: Seq<u8>,
    ip: int,
    st: Store,
    steps: nat,
)
    ensures
        run_from(
            program,
            input,
            State { ip, pos: st.pos, cells: st.cells },
            st.consumed,
            st.output,
            steps,
        ) == run_at(
            program,
            input,
            after(program, input, ip, st, steps).0,
            after(program, input, ip, st, steps).1,
        ),
    decreases steps,
{
    let (ip1, st1, effect) = transition(program, input, ip, st);
    if steps > 0 {
        lemma_run_from_after(program, input, ip1, st1, (steps - 1) as nat);
        if effect is Halted || effect is NeedInput || effect is OutOfBounds {
            lemma_after_stuck(program, input, ip, st, steps);
        }
    }
}

/// A machine that cannot step stays where it is.
pub proof fn lemma_after_stuck(
    program: Seq<Instruction>,
    input: Seq<u8>,
    ip: int,
    st: Store,
    k: nat,
)
    requires
        ending(program, input, ip, st) != Outcome::OutOfSteps,
    ensures
        after(program, input, ip, st, k) == (ip, st),
    decreases k,
{
    if k > 0 {
        assert(transition(program, input, ip, st).0 == ip);
        assert(transition(program, input, ip, st).1 == st);
        lemma_after_stuck(program, input, ip, st, (k - 1) as nat);
    }
}

/// `a` steps and then `b` steps are `a + b` steps.
pub proof fn lemma_after_add(
    program: Seq<Instruction>,
    input: Seq<u8>,
    ip: int,
    st: Store,
    a: nat,
    b: nat,
)
    ensures
        after(program, input, ip, st, a + b) == after(
            program,
            input,
            after(program, input, ip, st, a).0,
            after(program, input, ip, st, a).1,
            b,
        ),
    decreases a,
{
    if a > 0 {
        let (ip1, st1, effect) = transition(program, input, ip, st);
        lemma_after_add(program, input, ip1, st1, (a - 1) as nat, b);
    }
}

/// A run that has ended within `steps` steps is the same run with any
/// number of steps more.
pub proof fn lemma_run_settles(program: Seq<Instruction>, input: Seq<u8>, steps: nat, more: nat)
    requires
        run_spec(program, input, steps).outcome != Outcome::OutOfSteps,
        steps <= more,
    ensures
        run_spec(program, input, more) == run_spec(program, input, steps),
{
    let start = Store {
        pos: initial_state().pos,
        cells: initial_state().cells,
        consumed: 0,
        output: Seq::empty(),
    };
    lemma_run_from_after(program, input, 0, start, steps);
    lemma_run_from_after(program, input, 0, start, more);
    let (ip, st) = after(program, input, 0, start, steps);
    lemma_after_add(program, input, 0, start, steps, (more - steps) as nat);
    lemma_after_stuck(program, input, ip, st, (more - steps) as nat);
}

/// How the execution of a tree from some store ends.
pub enum Fate {
    /// The tree was executed to its end and left this store.
    Done(Store),
    /// An instruction could not be executed, for the reason given; the
    /// store is as the instructions before it left it.
    Failed(Outcome, Store),
    /// A loop body was to be entered with no fuel left; the store is as it
    /// was then.
    Tired(Store),
}

/// The instruction that a node other than a loop compiles to.
pub open spec fn instruction_of(node: Node) -> Instruction {
    match node {
        Node::Move(n) => Instruction::Move(n),
        Node::Add(n) => Instruction::Add(n),
        Node::Input => Instruction::Input,
        _ => Instruction::Output,
    }
}

/// The execution of a node other than a loop: what the machine does on
/// its instruction.
pub open spec fn exec_leaf(node: Node, st: Store, input: Seq<u8>) -> Fate {
    let (ip, next, effect) = transition(seq![instruction_of(node)], input, 0, st);
    match effect {
        Effect::NeedInput => Fate::Failed(Outcome::InputExhausted, st),
        Effect::OutOfBounds => Fate::Failed(Outcome::OutOfBounds, st),
        _ => Fate::Done(next),
    }
}

/// The execution of a tree from `st`: its nodes in order, as long as none
/// fails. `fuel` bounds how many loop bodies are entered one after or
/// inside another; with enough of it every execution that ends is `Done`
/// or `Failed`.
pub open spec fn exec_seq(tree: Seq<Node>, st: Store, input: Seq<u8>, fuel: nat) -> Fate
    decreases fuel, tree,
{
    if tree.len() == 0 {
        Fate::Done(st)
    } else {
        match exec_seq(tree.drop_last(), st, input, fuel) {
            Fate::Done(mid) => match tree.last() {
                Node::Loop(body) => exec_loop(body, mid, input, fuel),
                leaf => exec_leaf(leaf, mid, input),
            },
            other => other,
        }
    }
}

/// The execution of a loop from `st`: the current cell is accessed; if it
/// is zero the loop is done, and else the body is executed and the loop
/// again.
pub open spec fn exec_loop(body: Seq<Node>, st: Store, input: Seq<u8>, fuel: nat) -> Fate
    decreases fuel, body,
{
    if st.pos < 0 {
        Fate::Failed(Outcome::OutOfBounds, st)
    } else {
        let awake = Store { cells: grown(st.cells, st.pos as int), ..st };
        if awake.cells[st.pos as int] == 0 {
            Fate::Done(awake)
        } else if fuel == 0 {
            Fate::Tired(st)
        } else {
            match exec_seq(body, awake, input, (fuel - 1) as nat) {
                Fate::Done(next) => exec_loop(body, next, input, (fuel - 1) as nat),
                other => other,
            }
        }
    }
}

/// The execution of one node.
pub open spec fn exec_node(node: Node, st: Store, input: Seq<u8>, fuel: nat) -> Fate {
    match node {
        Node::Loop(body) => exec_loop(body, st, input, fuel),
        leaf => exec_leaf(leaf, st, input),
    }
}

/// A tree with one more node executes as the tree and then the node.
pub proof fn lemma_exec_push(tree: Seq<Node>, node: Node, st: Store, input: Seq<u8>, fuel: nat)
    ensures
        exec_seq(tree.push(node), st, input, fuel) == match exec_seq(tree, st, input, fuel) {
            Fate::Done(mid) => exec_node(node, mid, input, fuel),
            other => other,
        },
{
    assert(tree.push(node).drop_last() =~= tree);
}

/// Whether `code` stands in `program` at index `base`.
pub open spec fn placed(program: Seq<Instruction>, code: Seq<Instruction>, base: int) -> bool {
    &&& 0 <= base
    &&& base + code.len() <= program.len()
    &&& program.subrange(base, base + code.len()) == code
}

/// Where code stands, each of its two parts stands.
pub proof fn lemma_placed_split(
    program: Seq<Instruction>,
    a: Seq<Instruction>,
    b: Seq<Instruction>,
    base: int,
)
    requires
        placed(program, a + b, base),
    ensures
        placed(program, a, base),
        placed(program, b, base + a.len()),
{
    let whole = program.subrange(base, base + (a + b).len());
    assert(program.subrange(base, base + a.len()) =~= whole.subrange(0, a.len() as int));
    assert(whole.subrange(0, a.len() as int) =~= a);
    assert(program.subrange(base + a.len(), base + a.len() + b.len()) =~= whole.subrange(
        a.len() as int,
        (a + b).len() as int,
    ));
    assert(whole.subrange(a.len() as int, (a + b).len() as int) =~= b);
}

/// Where code stands, each of its instructions stands.
pub proof fn lemma_placed_at(
    program: Seq<Instruction>,
    code: Seq<Instruction>,
    base: int,
    i: int,
)
    requires
        placed(program, code, base),
        0 <= i < code.len(),
    ensures
        program[base + i] == code[i],
{
    assert(program.subrange(base, base + code.len())[i] == program[base + i]);
}

/// Whether the machine, `k` steps after it stood at `ip` with `st`, has
/// come to where `fate` says: at `exit` with the store left, or stuck for
/// the reason given with the store left, or still able to step, after at
/// least `fuel` steps, with the store left.
pub open spec fn reaches(
    program: Seq<Instruction>,
    input: Seq<u8>,
    ip: int,
    st: Store,
    k: nat,
    fate: Fate,
    exit: int,
    fuel: nat,
) -> bool {
    let (ip1, st1) = after(program, input, ip, st, k);
    match fate {
        Fate::Done(end) => ip1 == exit && st1 == end,
        Fate::Failed(outcome, end) => st1 == end && ending(program, input, ip1, st1) == outcome
            && outcome != Outcome::OutOfSteps,
        Fate::Tired(end) => k >= fuel && st1 == end && ending(program, input, ip1, st1)
            == Outcome::OutOfSteps,
    }
}

/// One step and then `k` steps are `k + 1` steps.
pub proof fn lemma_after_step(
    program: Seq<Instruction>,
    input: Seq<u8>,
    ip: int,
    st: Store,
    k: nat,
)
    ensures
        after(program, input, ip, st, k + 1) == after(
            program,
            input,
            transition(program, input, ip, st).0,
            transition(program, input, ip, st).1,
            k,
        ),
        after(program, input, ip, st, 0) == (ip, st),
{
}

/// The machine runs the compiled form of a tree as the tree prescribes.
pub proof fn lemma_sim_seq(
    program: Seq<Instruction>,
    input: Seq<u8>,
    tree: Seq<Node>,
    base: int,
    st: Store,
    fuel: nat,
) -> (k: nat)
    requires
        placed(program, compiled(tree, base), base),
        base + flat_len(tree) <= usize::MAX,
    ensures
        reaches(
            program,
            input,
            base,
            st,
            k,
            exec_seq(tree, st, input, fuel),
            base + flat_len(tree),
            fuel,
        ),
    decreases fuel, tree, 0int,
{
    if tree.len() == 0 {
        0
    } else {
        let front = tree.drop_last();
        let node = tree.last();
        let at = base + flat_len(front);
        lemma_compiled_len(front, base);
        assert(compiled(tree, base) == compiled(front, base) + compiled_node(node, at));
        lemma_placed_split(program, compiled(front, base), compiled_node(node, at), base);
        let k1 = lemma_sim_seq(program, input, front, base, st, fuel);
        match exec_seq(front, st, input, fuel) {
            Fate::Done(mid) => {
                let k2 = match node {
                    Node::Loop(body) => {
                        lemma_compiled_len(body, at + 1);
                        lemma_sim_loop(program, input, body, at, mid, fuel, false)
                    },
                    leaf => {
                        lemma_placed_at(program, compiled_node(node, at), at, 0);
                        assert(program[at] == instruction_of(node));
                        let effect = transition(program, input, at, mid).2;
                        if effect is NeedInput || effect is OutOfBounds {
                            0nat
                        } else {
                            lemma_after_step(program, input, at, mid, 0);
                            lemma_after_step(
                                program,
                                input,
                                transition(program, input, at, mid).0,
                                transition(program, input, at, mid).1,
                                0,
                            );
                            1nat
                        }
                    },
                };
                lemma_after_add(program, input, base, st, k1, k2);
                k1 + k2
            },
            _ => k1,
        }
    }
}

/// The machine runs the compiled form of a loop as the loop prescribes,
/// whether it comes to the loop's header or, after the body, to its footer.
pub proof fn lemma_sim_loop(
    program: Seq<Instruction>,
    input: Seq<u8>,
    body: Seq<Node>,
    at: int,
    st: Store,
    fuel: nat,
    from_footer: bool,
) -> (k: nat)
    requires
        placed(program, framed(compiled(body, at + 1), at), at),
        at + flat_len(body) + 2 <= usize::MAX,
    ensures
        reaches(
            program,
            input,
            if from_footer {
                at + flat_len(body) + 1
            } else {
                at
            },
            st,
            k,
            exec_loop(body, st, input, fuel),
            at + flat_len(body) + 2,
            fuel,
        ),
    decreases fuel, body, 1int,
{
    let n = flat_len(body) as int;
    let inner = compiled(body, at + 1);
    lemma_compiled_len(body, at + 1);
    let header = seq![Instruction::JmpEq((at + n + 2) as usize)];
    let footer = seq![Instruction::JmpNEq(at as usize)];
    assert(framed(inner, at) == header + inner + footer);
    lemma_placed_split(program, header + inner, footer, at);
    lemma_placed_split(program, header, inner, at);
    lemma_placed_at(program, header, at, 0);
    lemma_placed_at(program, footer, at + n + 1, 0);
    assert(program[at] == Instruction::JmpEq((at + n + 2) as usize));
    assert(program[at + n + 1] == Instruction::JmpNEq(at as usize));
    let start = if from_footer {
        at + n + 1
    } else {
        at
    };
    lemma_after_step(program, input, start, st, 0);
    lemma_grown(st.cells, st.pos as int);
    if st.pos < 0 {
        0
    } else {
        let awake = Store { cells: grown(st.cells, st.pos as int), ..st };
        assert(grown(awake.cells, st.pos as int) == awake.cells);
        if awake.cells[st.pos as int] == 0 {
            assert(transition(program, input, start, st).0 == at + n + 2);
            assert(transition(program, input, start, st).1 == awake);
            lemma_after_step(program, input, at + n + 2, awake, 0);
            1
        } else if fuel == 0 {
            0
        } else {
            let k0: nat = if from_footer {
                assert(transition(program, input, start, st).0 == at);
                assert(transition(program, input, start, st).1 == awake);
                lemma_after_step(program, input, start, st, 1);
                lemma_after_step(program, input, at, awake, 0);
                assert(transition(program, input, at, awake).0 == at + 1);
                assert(transition(program, input, at, awake).1 == awake);
                lemma_after_step(program, input, at + 1, awake, 0);
                2
            } else {
                assert(transition(program, input, start, st).0 == at + 1);
                assert(transition(program, input, start, st).1 == awake);
                lemma_after_step(program, input, at + 1, awake, 0);
                1
            };
            assert(after(program, input, start, st, k0) == (at + 1, awake));
            let kb = lemma_sim_seq(program, input, body, at + 1, awake, (fuel - 1) as nat);
            lemma_after_add(program, input, start, st, k0, kb);
            match exec_seq(body, awake, input, (fuel - 1) as nat) {
                Fate::Done(next) => {
                    let kr = lemma_sim_loop(
                        program,
                        input,
                        body,
                        at,
                        next,
                        (fuel - 1) as nat,
                        true,
                    );
                    lemma_after_add(program, input, start, st, k0 + kb, kr);
                    k0 + kb + kr
                },
                _ => k0 + kb,
            }
        }
    }
}

/// The store that an execution has left, however it ended.
pub open spec fn left(fate: Fate) -> Store {
    match fate {
        Fate::Done(st) => st,
        Fate::Failed(_, st) => st,
        Fate::Tired(st) => st,
    }
}

/// What begins what begins a sequence begins that sequence.
pub proof fn lemma_prefix_trans(a: Seq<u8>, b: Seq<u8>, c: Seq<u8>)
    requires
        a.is_prefix_of(b),
        b.is_prefix_of(c),
    ensures
        a.is_prefix_of(c),
        a.is_prefix_of(a),
{
    assert forall|i: int| 0 <= i < a.len() implies a[i] == c[i] by {
        assert(a[i] == b.subrange(0, a.len() as int)[i]);
        assert(b[i] == c.subrange(0, b.len() as int)[i]);
    }
}

/// What was output stays output: whatever a node does, the output after it
/// begins with the output before it.
pub proof fn lemma_node_output(node: Node, st: Store, input: Seq<u8>, fuel: nat)
    ensures
        st.output.is_prefix_of(left(exec_node(node, st, input, fuel)).output),
    decreases fuel, node, 2int,
{
    match node {
        Node::Loop(body) => {
            lemma_loop_output(body, st, input, fuel);
        },
        _ => {},
    }
}

/// The output after a tree begins with the output before it.
pub proof fn lemma_exec_output(tree: Seq<Node>, st: Store, input: Seq<u8>, fuel: nat)
    ensures
        st.output.is_prefix_of(left(exec_seq(tree, st, input, fuel)).output),
    decreases fuel, tree, 0int,
{
    if tree.len() > 0 {
        lemma_exec_output(tree.drop_last(), st, input, fuel);
        if let Fate::Done(mid) = exec_seq(tree.drop_last(), st, input, fuel) {
            lemma_node_output(tree.last(), mid, input, fuel);
            lemma_prefix_trans(
                st.output,
                mid.output,
                left(exec_node(tree.last(), mid, input, fuel)).output,
            );
        }
    }
}

/// The output after a loop begins with the output before it.
pub proof fn lemma_loop_output(body: Seq<Node>, st: Store, input: Seq<u8>, fuel: nat)
    ensures
        st.output.is_prefix_of(left(exec_loop(body, st, input, fuel)).output),
    decreases fuel, body, 1int,
{
    if st.pos >= 0 {
        let awake = Store { cells: grown(st.cells, st.pos as int), ..st };
        if awake.cells[st.pos as int] != 0 && fuel > 0 {
            lemma_exec_output(body, awake, input, (fuel - 1) as nat);
            if let Fate::Done(next) = exec_seq(body, awake, input, (fuel - 1) as nat) {
                lemma_loop_output(body, next, input, (fuel - 1) as nat);
                lemma_prefix_trans(
                    st.output,
                    next.output,
                    left(exec_loop(body, next, input, (fuel - 1) as nat)).output,
                );
            }
        }
    }
}

/// What was output stays output: the output after `k` steps begins with
/// the output before them.
pub proof fn lemma_output_grows(
    program: Seq<Instruction>,
    input: Seq<u8>,
    ip: int,
    st: Store,
    k: nat,
)
    ensures
        st.output.is_prefix_of(after(program, input, ip, st, k).1.output),
    decreases k,
{
    if k > 0 {
        let (ip1, st1, effect) = transition(program, input, ip, st);
        lemma_output_grows(program, input, ip1, st1, (k - 1) as nat);
    }
}

} // verus!
