//! Compilation of a program tree into a flat instruction sequence in which
//! every loop has become a pair of jumps with absolute targets.

use vstd::prelude::*;
use crate::parse::Expr;
use crate::parse::Node;
use crate::parse::node_of;
use crate::parse::nodes_of;
use crate::parse::lemma_view_loop;
use crate::parse::lemma_view_take;

verus! {

/// One instruction of a flat program.
#[derive(Debug, PartialEq, Eq, Structural, Clone, Copy)]
pub enum Instruction {
    /// Move the tape position by a signed offset.
    Move(i32),
    /// Add a signed delta to the current cell.
    Add(i32),
    /// Output the current cell.
    Output,
    /// Read one byte into the current cell.
    Input,
    /// Continue at the given index if the current cell is zero.
    JmpEq(usize),
    /// Continue at the given index if the current cell is not zero.
    JmpNEq(usize),
}

/// The number of instructions that a tree compiles to: one for each node and
/// one more for each loop.
pub open spec fn flat_len(tree: Seq<Node>) -> nat
    decreases tree,
{
    if tree.len() == 0 {
        0
    } else {
        flat_len(tree.drop_last()) + match tree.last() {
            Node::Loop(body) => flat_len(body) + 2,
            _ => 1,
        }
    }
}

/// The number of instructions that one node compiles to.
pub open spec fn node_len(node: Node) -> nat {
    match node {
        Node::Loop(body) => flat_len(body) + 2,
        _ => 1,
    }
}

/// The instructions of a loop whose header will stand at index `at`, given
/// the instructions of its body: the header jumps past the footer when the
/// cell is zero, the footer jumps back to the header when it is not.
pub open spec fn framed(inner: Seq<Instruction>, at: int) -> Seq<Instruction> {
    seq![Instruction::JmpEq((at + inner.len() + 2) as usize)] + inner
        + seq![Instruction::JmpNEq(at as usize)]
}

/// The instructions of a tree whose first instruction will stand at index
/// `offset` of the whole program: those of its nodes in order, a loop's
/// body between the loop's two jumps.
pub open spec fn compiled(tree: Seq<Node>, offset: int) -> Seq<Instruction>
    decreases tree,
{
    if tree.len() == 0 {
        Seq::empty()
    } else {
        let front = compiled(tree.drop_last(), offset);
        let at = offset + front.len();
        front + match tree.last() {
            Node::Move(n) => seq![Instruction::Move(n)],
            Node::Add(n) => seq![Instruction::Add(n)],
            Node::Output => seq![Instruction::Output],
            Node::Input => seq![Instruction::Input],
            Node::Loop(body) => framed(compiled(body, at + 1), at),
        }
    }
}

/// The instructions of one node whose first instruction will stand at index
/// `at`.
pub open spec fn compiled_node(node: Node, at: int) -> Seq<Instruction> {
    match node {
        Node::Move(n) => seq![Instruction::Move(n)],
        Node::Add(n) => seq![Instruction::Add(n)],
        Node::Output => seq![Instruction::Output],
        Node::Input => seq![Instruction::Input],
        Node::Loop(body) => framed(compiled(body, at + 1), at),
    }
}

/// A tree with one more node compiles to that node's instructions more.
pub proof fn lemma_compiled_push(tree: Seq<Node>, node: Node, offset: int)
    ensures
        compiled(tree.push(node), offset) == compiled(tree, offset) + compiled_node(
            node,
            offset + flat_len(tree),
        ),
        flat_len(tree.push(node)) == flat_len(tree) + node_len(node),
{
    assert(tree.push(node).drop_last() =~= tree);
    lemma_compiled_len(tree, offset);
}

/// A tree with one more node compiles to that node's instructions more.
pub proof fn lemma_flat_len_push(tree: Seq<Node>, node: Node)
    ensures
        flat_len(tree.push(node)) == flat_len(tree) + node_len(node),
{
    assert(tree.push(node).drop_last() =~= tree);
}

/// Two trees in a row compile to the instructions of both.
pub proof fn lemma_flat_len_append(a: Seq<Node>, b: Seq<Node>)
    ensures
        flat_len(a + b) == flat_len(a) + flat_len(b),
    decreases b.len(),
{
    if b.len() == 0 {
        assert(a + b =~= a);
    } else {
        lemma_flat_len_append(a, b.drop_last());
        assert((a + b).drop_last() =~= a + b.drop_last());
    }
}

/// A tree compiles to `flat_len` instructions, wherever it is placed.
pub proof fn lemma_compiled_len(tree: Seq<Node>, offset: int)
    ensures
        compiled(tree, offset).len() == flat_len(tree),
    decreases tree,
{
    if tree.len() > 0 {
        lemma_compiled_len(tree.drop_last(), offset);
        match tree.last() {
            Node::Loop(body) => {
                lemma_compiled_len(body, offset + flat_len(tree.drop_last()) + 1);
            },
            _ => {},
        }
    }
}

/// A prefix of a tree compiles to no more instructions than the tree.
pub proof fn lemma_flat_len_prefix(tree: Seq<Node>, i: int)
    requires
        0 <= i <= tree.len(),
    ensures
        flat_len(tree.take(i)) <= flat_len(tree),
    decreases tree.len(),
{
    if i < tree.len() {
        lemma_flat_len_prefix(tree.drop_last(), i);
        assert(tree.drop_last().take(i) =~= tree.take(i));
    } else {
        assert(tree.take(i) =~= tree);
    }
}

/// Whether the instruction at index `i` of `code`, which stands at index
/// `base` of a program, is no jump-if-zero or is one with its partner: with
/// target `t`, it has a jump-if-nonzero behind it at `t - 1`, whose target
/// is the jump-if-zero itself.
pub open spec fn header_paired(code: Seq<Instruction>, base: int, i: int) -> bool {
    code[i] matches Instruction::JmpEq(t) ==> {
        &&& i < t - 1 - base < code.len()
        &&& code[t - 1 - base] == Instruction::JmpNEq((base + i) as usize)
    }
}

/// Whether the instruction at index `j` of `code` is no jump-if-nonzero or
/// is one with its partner: with target `h`, it has a jump-if-zero before
/// it at `h`, whose target is the index after the jump-if-nonzero.
pub open spec fn footer_paired(code: Seq<Instruction>, base: int, j: int) -> bool {
    code[j] matches Instruction::JmpNEq(h) ==> {
        &&& 0 <= h - base < j
        &&& code[h - base] == Instruction::JmpEq((base + j + 1) as usize)
    }
}

/// Whether two jumps-if-zero at indices `i < k` of `code` do not cross: the
/// partner of the first stands before the second, or the partner of the
/// second before the partner of the first.
pub open spec fn uncrossed(code: Seq<Instruction>, base: int, i: int, k: int) -> bool {
    code[i] matches Instruction::JmpEq(t) ==> (code[k] matches Instruction::JmpEq(u) ==> t - 1
        - base < k || u <= t - 1)
}

/// Whether the jumps of `code`, which stands at index `base` of a program,
/// pair up: every jump-if-zero and every jump-if-nonzero has its partner,
/// and no two pairs cross.
pub open spec fn paired(code: Seq<Instruction>, base: int) -> bool {
    &&& forall|i: int| 0 <= i < code.len() ==> #[trigger] header_paired(code, base, i)
    &&& forall|j: int| 0 <= j < code.len() ==> #[trigger] footer_paired(code, base, j)
    &&& forall|i: int, k: int| 0 <= i < k < code.len() ==> #[trigger] uncrossed(code, base, i, k)
}

/// Code whose jumps pair up, followed by code whose jumps pair up, is code
/// whose jumps pair up.
pub proof fn lemma_paired_concat(a: Seq<Instruction>, b: Seq<Instruction>, base: int)
    requires
        paired(a, base),
        paired(b, base + a.len()),
    ensures
        paired(a + b, base),
{
    let c = a + b;
    let n = a.len() as int;
    assert forall|i: int| 0 <= i < c.len() implies #[trigger] header_paired(c, base, i) by {
        if i < n {
            assert(header_paired(a, base, i));
            assert(c[i] == a[i]);
            if let Instruction::JmpEq(t) = a[i] {
                assert(c[t - 1 - base] == a[t - 1 - base]);
            }
        } else {
            assert(header_paired(b, base + n, i - n));
            assert(c[i] == b[i - n]);
            if let Instruction::JmpEq(t) = b[i - n] {
                assert(c[t - 1 - base] == b[t - 1 - base - n]);
            }
        }
    }
    assert forall|j: int| 0 <= j < c.len() implies #[trigger] footer_paired(c, base, j) by {
        if j < n {
            assert(footer_paired(a, base, j));
            assert(c[j] == a[j]);
            if let Instruction::JmpNEq(h) = a[j] {
                assert(c[h - base] == a[h - base]);
            }
        } else {
            assert(footer_paired(b, base + n, j - n));
            assert(c[j] == b[j - n]);
            if let Instruction::JmpNEq(h) = b[j - n] {
                assert(c[h - base] == b[h - base - n]);
            }
        }
    }
    assert forall|i: int, k: int| 0 <= i < k < c.len() implies #[trigger] uncrossed(
        c,
        base,
        i,
        k,
    ) by {
        if k < n {
            assert(uncrossed(a, base, i, k));
            assert(c[i] == a[i] && c[k] == a[k]);
        } else if i >= n {
            assert(uncrossed(b, base + n, i - n, k - n));
            assert(c[i] == b[i - n] && c[k] == b[k - n]);
        } else {
            assert(header_paired(a, base, i));
            assert(c[i] == a[i]);
        }
    }
}

/// A loop around code whose jumps pair up is code whose jumps pair up.
pub proof fn lemma_paired_framed(inner: Seq<Instruction>, at: int)
    requires
        0 <= at,
        at + inner.len() + 2 <= usize::MAX,
        paired(inner, at + 1),
    ensures
        paired(framed(inner, at), at),
{
    let c = framed(inner, at);
    let n = inner.len() as int;
    assert(c.len() == n + 2);
    assert(c[0] == Instruction::JmpEq((at + n + 2) as usize));
    assert(c[n + 1] == Instruction::JmpNEq(at as usize));
    assert forall|i: int| 0 <= i < c.len() implies #[trigger] header_paired(c, at, i) by {
        if 1 <= i <= n {
            assert(header_paired(inner, at + 1, i - 1));
            assert(c[i] == inner[i - 1]);
            if let Instruction::JmpEq(t) = inner[i - 1] {
                assert(c[t - 1 - at] == inner[t - 1 - at - 1]);
            }
        }
    }
    assert forall|j: int| 0 <= j < c.len() implies #[trigger] footer_paired(c, at, j) by {
        if 1 <= j <= n {
            assert(footer_paired(inner, at + 1, j - 1));
            assert(c[j] == inner[j - 1]);
            if let Instruction::JmpNEq(h) = inner[j - 1] {
                assert(c[h - at] == inner[h - at - 1]);
            }
        }
    }
    assert forall|i: int, k: int| 0 <= i < k < c.len() implies #[trigger] uncrossed(
        c,
        at,
        i,
        k,
    ) by {
        if k <= n {
            assert(header_paired(inner, at + 1, k - 1));
            assert(c[k] == inner[k - 1]);
            if i >= 1 {
                assert(uncrossed(inner, at + 1, i - 1, k - 1));
                assert(c[i] == inner[i - 1]);
            }
        }
    }
}

/// The jumps of every compiled tree pair up.
pub proof fn lemma_compiled_paired(tree: Seq<Node>, offset: int)
    requires
        0 <= offset,
        offset + flat_len(tree) <= usize::MAX,
    ensures
        paired(compiled(tree, offset), offset),
    decreases tree,
{
    if tree.len() > 0 {
        let front = tree.drop_last();
        let at = offset + flat_len(front);
        lemma_compiled_paired(front, offset);
        lemma_compiled_len(front, offset);
        match tree.last() {
            Node::Loop(body) => {
                lemma_compiled_paired(body, at + 1);
                lemma_compiled_len(body, at + 1);
                lemma_paired_framed(compiled(body, at + 1), at);
            },
            _ => {},
        }
        lemma_paired_concat(compiled(front, offset), compiled_node(tree.last(), at), offset);
    }
}

/// Compiles a tree into the instructions that will stand at index `offset`
/// and after it in the whole program.
pub fn compile(exprs: &[Expr], offset: usize) -> (instructions: Vec<Instruction>)
    requires
        offset + flat_len(exprs.deep_view()) <= usize::MAX,
    ensures
        instructions@ == compiled(exprs.deep_view(), offset as int),
        instructions@.len() == flat_len(exprs.deep_view()),
        paired(instructions@, offset as int),
    decreases exprs@,
{
    let ghost tree = nodes_of(exprs@);
    let mut instructions: Vec<Instruction> = Vec::new();
    let mut i: usize = 0;
    proof {
        assert(exprs.deep_view() =~= tree);
        assert(tree.take(0) =~= Seq::empty());
    }
    while i < exprs.len()
        invariant
            i <= exprs.len(),
            tree == nodes_of(exprs@),
            offset + flat_len(tree) <= usize::MAX,
            instructions@ == compiled(tree.take(i as int), offset as int),
        decreases exprs.len() - i,
    {
        let ghost cur = node_of(exprs@[i as int]);
        let ghost done = instructions@;
        let ghost at = offset + done.len();
        proof {
            lemma_view_take(exprs@, i as int);
            lemma_compiled_len(tree.take(i as int), offset as int);
            lemma_compiled_push(tree.take(i as int), cur, offset as int);
            lemma_flat_len_prefix(tree, i + 1);
        }
        match &exprs[i] {
            Expr::Move(n) => {
                instructions.push(Instruction::Move(*n));
            },
            Expr::Add(n) => {
                instructions.push(Instruction::Add(*n));
            },
            Expr::Output => {
                instructions.push(Instruction::Output);
            },
            Expr::Input => {
                instructions.push(Instruction::Input);
            },
            Expr::Loop(body) => {
                let header = offset + instructions.len();
                let slice = body.as_slice();
                proof {
                    lemma_view_loop(*body);
                    assert(slice.deep_view() =~= nodes_of(body@));
                    assert(cur == Node::Loop(nodes_of(body@)));
                }
                let mut inner = compile(slice, header + 1);
                let ghost code = inner@;
                let after = header + 1 + inner.len() + 1;
                instructions.push(Instruction::JmpEq(after));
                instructions.append(&mut inner);
                instructions.push(Instruction::JmpNEq(header));
                proof {
                    assert(instructions@ =~= done + framed(code, at));
                }
            },
        }
        proof {
            assert(instructions@ =~= done + compiled_node(cur, at));
        }
        i += 1;
    }
    proof {
        assert(tree.take(i as int) =~= tree);
        lemma_compiled_len(tree, offset as int);
        lemma_compiled_paired(tree, offset as int);
    }
    instructions
}

} // verus!
