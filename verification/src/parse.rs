//! Parsing: tokens to an expression tree.

use vstd::prelude::*;
use crate::lex::Token;
use crate::compile::flat_len;

verus! {

/// One node of a program tree.
#[derive(Debug, PartialEq, Eq)]
pub enum Expr {
    /// Move the tape position by a signed offset.
    Move(i32),
    /// Add a signed delta to the current cell.
    Add(i32),
    /// Output the current cell.
    Output,
    /// Read one byte into the current cell.
    Input,
    /// Repeat the body while the current cell is nonzero.
    Loop(Vec<Expr>),
}

/// The mathematical value of an [`Expr`]: the same tree, with a sequence in
/// place of each vector.
#[verifier::ext_equal]
pub enum Node {
    /// A move of the tape position by the offset.
    Move(i32),
    /// An addition of the delta to the current cell.
    Add(i32),
    /// An output of the current cell.
    Output,
    /// An input of one byte into the current cell.
    Input,
    /// A loop over the body.
    Loop(Seq<Node>),
}

/// The node that an expression stands for.
pub open spec fn node_of(e: Expr) -> Node
    decreases e,
{
    match e {
        Expr::Move(n) => Node::Move(n),
        Expr::Add(n) => Node::Add(n),
        Expr::Output => Node::Output,
        Expr::Input => Node::Input,
        Expr::Loop(body) => Node::Loop(
            Seq::new(
                body@.len(),
                |i: int|
                    if 0 <= i < body@.len() {
                        node_of(body@[i])
                    } else {
                        Node::Output
                    },
            ),
        ),
    }
}

impl DeepView for Expr {
    type V = Node;

    open spec fn deep_view(&self) -> Node {
        node_of(*self)
    }
}

/// The nodes that a sequence of expressions stands for, in order.
pub open spec fn nodes_of(exprs: Seq<Expr>) -> Seq<Node> {
    Seq::new(exprs.len(), |i: int| node_of(exprs[i]))
}

/// A loop's view is a loop over the view of its body.
pub proof fn lemma_view_loop(body: Vec<Expr>)
    ensures
        Expr::Loop(body).deep_view() == Node::Loop(body.deep_view()),
        body.deep_view() == nodes_of(body@),
{
    assert(node_of(Expr::Loop(body))->Loop_0 =~= body.deep_view());
    assert(body.deep_view() =~= nodes_of(body@));
}

/// Pushing an expression pushes its view.
pub proof fn lemma_view_push(exprs: Seq<Expr>, e: Expr)
    ensures
        nodes_of(exprs.push(e)) == nodes_of(exprs).push(node_of(e)),
{
    assert(nodes_of(exprs.push(e)) =~= nodes_of(exprs).push(node_of(e)));
}

/// The view of the first `i + 1` expressions is the view of the first `i`
/// followed by the view of the one at `i`.
pub proof fn lemma_view_take(exprs: Seq<Expr>, i: int)
    requires
        0 <= i < exprs.len(),
    ensures
        nodes_of(exprs).take(i + 1) == nodes_of(exprs).take(i).push(node_of(exprs[i])),
        nodes_of(exprs).take(i + 1).drop_last() == nodes_of(exprs).take(i),
        nodes_of(exprs).take(i + 1).last() == node_of(exprs[i]),
{
    assert(nodes_of(exprs).take(i + 1) =~= nodes_of(exprs).take(i).push(node_of(exprs[i])));
    assert(nodes_of(exprs).take(i + 1).drop_last() =~= nodes_of(exprs).take(i));
}

impl Clone for Expr {
    fn clone(&self) -> (copy: Expr)
        ensures
            copy.deep_view() == self.deep_view(),
    {
        clone_expr(self)
    }
}

/// A copy of one node, its whole subtree included.
fn clone_expr(e: &Expr) -> (copy: Expr)
    ensures
        node_of(copy) == node_of(*e),
    decreases e,
{
    match e {
        Expr::Move(n) => Expr::Move(*n),
        Expr::Add(n) => Expr::Add(*n),
        Expr::Output => Expr::Output,
        Expr::Input => Expr::Input,
        Expr::Loop(body) => {
            let mut copy: Vec<Expr> = Vec::new();
            let mut i: usize = 0;
            while i < body.len()
                invariant
                    e is Loop,
                    e->Loop_0 == *body,
                    i <= body.len(),
                    nodes_of(copy@) == nodes_of(body@).take(i as int),
                decreases body.len() - i,
            {
                let c = clone_expr(&body[i]);
                proof {
                    lemma_view_push(copy@, c);
                    lemma_view_take(body@, i as int);
                }
                copy.push(c);
                i += 1;
            }
            proof {
                assert(nodes_of(body@).take(i as int) == nodes_of(body@));
                lemma_view_loop(copy);
                lemma_view_loop(*body);
            }
            Expr::Loop(copy)
        },
    }
}

/// Why a token sequence is no program.
#[derive(Debug, PartialEq, Eq, Structural, Clone, Copy)]
pub enum ParseError {
    /// A `[` without its `]`, or a `]` without its `[`.
    UnmatchedBracket,
}

impl ParseError {
    /// The error in words.
    pub fn message(&self) -> (text: String)
        ensures
            text@ == "Unmatched Bracket"@,
    {
        "Unmatched Bracket".to_owned()
    }
}

/// The node that a token other than a bracket stands for.
pub open spec fn leaf(token: Token) -> Node {
    match token {
        Token::MoveRight => Node::Move(1),
        Token::MoveLeft => Node::Move(-1i32),
        Token::Increment => Node::Add(1),
        Token::Decrement => Node::Add(-1i32),
        Token::Input => Node::Input,
        _ => Node::Output,
    }
}

/// The blocks that are open after `tokens` were read, outermost first: the
/// program itself, then the body of each loop that was begun and not yet
/// ended, each with the nodes it has so far. `None` if a `]` came with no
/// loop open.
pub open spec fn open_blocks(tokens: Seq<Token>) -> Option<Seq<Seq<Node>>>
    decreases tokens.len(),
{
    if tokens.len() == 0 {
        Some(seq![Seq::empty()])
    } else {
        match open_blocks(tokens.drop_last()) {
            None => None,
            Some(blocks) => match tokens.last() {
                Token::Loop => Some(blocks.push(Seq::empty())),
                Token::EndLoop => if blocks.len() < 2 {
                    None
                } else {
                    let outer = blocks.drop_last();
                    Some(outer.drop_last().push(outer.last().push(Node::Loop(blocks.last()))))
                },
                token => Some(blocks.drop_last().push(blocks.last().push(leaf(token)))),
            },
        }
    }
}

/// The tree that `tokens` stand for: what the outermost block holds when
/// every loop that was begun has ended. `None` if a bracket has no partner.
pub open spec fn parsed(tokens: Seq<Token>) -> Option<Seq<Node>> {
    match open_blocks(tokens) {
        Some(blocks) => if blocks.len() == 1 {
            Some(blocks[0])
        } else {
            None
        },
        None => None,
    }
}

/// The outermost block is always open.
pub proof fn lemma_open_blocks_nonempty(tokens: Seq<Token>)
    ensures
        open_blocks(tokens) matches Some(blocks) ==> blocks.len() >= 1,
    decreases tokens.len(),
{
    if tokens.len() > 0 {
        lemma_open_blocks_nonempty(tokens.drop_last());
    }
}

/// Once a `]` has come with no loop open, no further token mends it.
pub proof fn lemma_open_blocks_fails(tokens: Seq<Token>, i: int)
    requires
        0 <= i <= tokens.len(),
        open_blocks(tokens.take(i)) is None,
    ensures
        open_blocks(tokens) is None,
    decreases tokens.len() - i,
{
    if i < tokens.len() {
        assert(tokens.take(i + 1).drop_last() =~= tokens.take(i));
        lemma_open_blocks_fails(tokens, i + 1);
    } else {
        assert(tokens.take(i) =~= tokens);
    }
}

/// The number of tokens that a stack of open blocks accounts for, plus
/// one: one for each instruction that the blocks compile to and one for
/// each block that was opened.
pub open spec fn blocks_len(blocks: Seq<Seq<Node>>) -> nat
    decreases blocks.len(),
{
    if blocks.len() == 0 {
        0
    } else {
        blocks_len(blocks.drop_last()) + flat_len(blocks.last()) + 1
    }
}

/// Every token read is accounted for in the open blocks.
pub proof fn lemma_open_blocks_len(tokens: Seq<Token>)
    ensures
        open_blocks(tokens) matches Some(blocks) ==> blocks_len(blocks) == tokens.len() + 1,
    decreases tokens.len(),
{
    reveal_with_fuel(blocks_len, 2);
    if tokens.len() > 0 {
        lemma_open_blocks_len(tokens.drop_last());
        lemma_open_blocks_nonempty(tokens.drop_last());
        if let Some(blocks) = open_blocks(tokens.drop_last()) {
            let top = blocks.last();
            match tokens.last() {
                Token::Loop => {
                    assert(blocks.push(Seq::empty()).drop_last() =~= blocks);
                    assert(flat_len(Seq::<Node>::empty()) == 0);
                },
                Token::EndLoop => {
                    if blocks.len() >= 2 {
                        let outer = blocks.drop_last();
                        let node = Node::Loop(top);
                        let next = outer.last().push(node);
                        assert(next.drop_last() =~= outer.last());
                        assert(outer.drop_last().push(next).drop_last() =~= outer.drop_last());
                    }
                },
                token => {
                    let next = top.push(leaf(token));
                    assert(next.drop_last() =~= top);
                    assert(blocks.drop_last().push(next).drop_last() =~= blocks.drop_last());
                },
            }
        }
    }
}

/// A parsed program compiles to one instruction for each token.
pub proof fn lemma_parsed_len(tokens: Seq<Token>)
    ensures
        parsed(tokens) matches Some(tree) ==> flat_len(tree) == tokens.len(),
{
    reveal_with_fuel(blocks_len, 2);
    lemma_open_blocks_len(tokens);
}

/// The token that a node other than a loop is written as.
pub open spec fn leaf_token(node: Node) -> Token {
    match node {
        Node::Move(n) => if n < 0 {
            Token::MoveLeft
        } else {
            Token::MoveRight
        },
        Node::Add(n) => if n < 0 {
            Token::Decrement
        } else {
            Token::Increment
        },
        Node::Input => Token::Input,
        _ => Token::Output,
    }
}

/// A tree written out in tokens: a loop as `[`, its body and `]`, any other
/// node as its one token.
pub open spec fn written(tree: Seq<Node>) -> Seq<Token>
    decreases tree,
{
    if tree.len() == 0 {
        Seq::empty()
    } else {
        written(tree.drop_last()) + match tree.last() {
            Node::Loop(body) => seq![Token::Loop] + written(body) + seq![Token::EndLoop],
            leaf => seq![leaf_token(leaf)],
        }
    }
}

/// Whether every move and every add of a tree, at any depth, is by one
/// step: what a parser yields.
pub open spec fn stepwise(tree: Seq<Node>) -> bool
    decreases tree,
{
    if tree.len() == 0 {
        true
    } else {
        &&& stepwise(tree.drop_last())
        &&& match tree.last() {
            Node::Loop(body) => stepwise(body),
            Node::Move(n) => n == 1 || n == -1,
            Node::Add(n) => n == 1 || n == -1,
            _ => true,
        }
    }
}

/// Open blocks written out in tokens: each block after the outermost one
/// behind the `[` that opened it.
pub open spec fn written_open(blocks: Seq<Seq<Node>>) -> Seq<Token>
    decreases blocks.len(),
{
    if blocks.len() == 0 {
        Seq::empty()
    } else if blocks.len() == 1 {
        written(blocks[0])
    } else {
        written_open(blocks.drop_last()) + seq![Token::Loop] + written(blocks.last())
    }
}

/// Whether every block is stepwise.
pub open spec fn all_stepwise(blocks: Seq<Seq<Node>>) -> bool {
    forall|k: int| 0 <= k < blocks.len() ==> stepwise(#[trigger] blocks[k])
}

/// A tree with one more node is written as the tree and then the node.
pub proof fn lemma_written_push(tree: Seq<Node>, node: Node)
    ensures
        written(tree.push(node)) == written(tree) + match node {
            Node::Loop(body) => seq![Token::Loop] + written(body) + seq![Token::EndLoop],
            leaf => seq![leaf_token(leaf)],
        },
        stepwise(tree.push(node)) == (stepwise(tree) && match node {
            Node::Loop(body) => stepwise(body),
            Node::Move(n) => n == 1 || n == -1,
            Node::Add(n) => n == 1 || n == -1,
            _ => true,
        }),
{
    assert(tree.push(node).drop_last() =~= tree);
}

/// Open blocks but the innermost one written out in tokens, up to and
/// with the `[` that opened the innermost one.
pub open spec fn written_around(blocks: Seq<Seq<Node>>) -> Seq<Token> {
    if blocks.len() <= 1 {
        Seq::empty()
    } else {
        written_open(blocks.drop_last()) + seq![Token::Loop]
    }
}

/// Open blocks are written as what stands around the innermost one, and
/// then the innermost one, whatever it holds.
pub proof fn lemma_written_open_last(blocks: Seq<Seq<Node>>, block: Seq<Node>)
    requires
        blocks.len() >= 1,
    ensures
        written_open(blocks.drop_last().push(block)) == written_around(blocks) + written(block),
        written_open(blocks) == written_around(blocks) + written(blocks.last()),
        written_open(blocks.push(block)) == written_open(blocks) + seq![Token::Loop] + written(
            block,
        ),
{
    let next = blocks.drop_last().push(block);
    assert(next.drop_last() =~= blocks.drop_last());
    assert(blocks.push(block).drop_last() =~= blocks);
    assert(written_open(next) =~= written_around(blocks) + written(block));
    assert(written_open(blocks) =~= written_around(blocks) + written(blocks.last()));
}

/// The blocks open after some tokens, written out, are those tokens, and
/// hold moves and adds by one step only.
pub proof fn lemma_open_blocks_written(tokens: Seq<Token>)
    ensures
        open_blocks(tokens) matches Some(blocks) ==> written_open(blocks) == tokens
            && all_stepwise(blocks),
    decreases tokens.len(),
{
    if tokens.len() == 0 {
        assert(written_open(seq![Seq::<Node>::empty()]) =~= tokens);
    } else {
        let read = tokens.drop_last();
        assert(tokens =~= read.push(tokens.last()));
        lemma_open_blocks_written(read);
        lemma_open_blocks_nonempty(read);
        if let Some(blocks) = open_blocks(read) {
            let top = blocks.last();
            assert(stepwise(top));
            match tokens.last() {
                Token::Loop => {
                    let next = blocks.push(Seq::empty());
                    lemma_written_open_last(blocks, Seq::empty());
                    assert(written_open(next) =~= tokens);
                    assert(all_stepwise(next));
                },
                Token::EndLoop => {
                    if blocks.len() >= 2 {
                        let outer = blocks.drop_last();
                        assert(stepwise(outer.last()));
                        let more = outer.last().push(Node::Loop(top));
                        lemma_written_push(outer.last(), Node::Loop(top));
                        let next = outer.drop_last().push(more);
                        lemma_written_open_last(outer, more);
                        lemma_written_open_last(outer, top);
                        assert(outer.push(top) =~= blocks);
                        assert(written_open(next) =~= tokens);
                        assert forall|k: int| 0 <= k < next.len() implies stepwise(
                            #[trigger] next[k],
                        ) by {
                            if k < next.len() - 1 {
                                assert(next[k] == blocks[k]);
                            }
                        }
                    }
                },
                token => {
                    let more = top.push(leaf(token));
                    lemma_written_push(top, leaf(token));
                    let next = blocks.drop_last().push(more);
                    lemma_written_open_last(blocks, more);
                    assert(written_open(next) =~= tokens);
                    assert forall|k: int| 0 <= k < next.len() implies stepwise(
                        #[trigger] next[k],
                    ) by {
                        if k < next.len() - 1 {
                            assert(next[k] == blocks[k]);
                        }
                    }
                },
            }
        }
    }
}

/// Reading a written tree appends the tree to the innermost open block.
pub proof fn lemma_read_written(read: Seq<Token>, tree: Seq<Node>)
    requires
        open_blocks(read) is Some,
        stepwise(tree),
    ensures
        open_blocks(read + written(tree)) == Some(
            open_blocks(read)->Some_0.drop_last().push(open_blocks(read)->Some_0.last() + tree),
        ),
    decreases tree,
{
    let blocks = open_blocks(read)->Some_0;
    lemma_open_blocks_nonempty(read);
    if tree.len() == 0 {
        assert(read + written(tree) =~= read);
        assert(blocks.drop_last().push(blocks.last() + tree) =~~= blocks);
    } else {
        let front = tree.drop_last();
        let node = tree.last();
        lemma_read_written(read, front);
        let so_far = read + written(front);
        let held = blocks.drop_last().push(blocks.last() + front);
        assert(held.drop_last() =~= blocks.drop_last());
        match node {
            Node::Loop(body) => {
                let opened = so_far.push(Token::Loop);
                assert(opened.drop_last() =~= so_far);
                lemma_read_written(opened, body);
                let inside = held.push(Seq::empty());
                assert(inside.drop_last() =~= held);
                assert(Seq::<Node>::empty() + body =~= body);
                let closed = (opened + written(body)).push(Token::EndLoop);
                assert(closed.drop_last() =~= opened + written(body));
                assert(closed =~= read + written(tree));
                let full = held.push(body);
                assert(full.drop_last() =~= held);
                assert(held.drop_last().push(held.last().push(Node::Loop(body)))
                    =~~= blocks.drop_last().push(blocks.last() + tree));
            },
            leaf => {
                let all = so_far.push(leaf_token(leaf));
                assert(all.drop_last() =~= so_far);
                assert(all =~= read + written(tree));
                assert(self::leaf(leaf_token(leaf)) == leaf);
                assert(held.drop_last().push(held.last().push(leaf)) =~~= blocks.drop_last().push(
                    blocks.last() + tree,
                ));
            },
        }
    }
}

/// Parsing is the inverse of writing a tree out: the tokens that parse to
/// a tree are the tree written out, and a tree of moves and adds by one
/// step, written out, parses to itself.
pub proof fn lemma_parsed_written(tokens: Seq<Token>, tree: Seq<Node>)
    ensures
        parsed(tokens) == Some(tree) ==> written(tree) == tokens && stepwise(tree),
        stepwise(tree) ==> parsed(written(tree)) == Some(tree),
{
    lemma_open_blocks_written(tokens);
    if stepwise(tree) {
        let none = Seq::<Token>::empty();
        lemma_read_written(none, tree);
        assert(none + written(tree) =~= written(tree));
        let start = seq![Seq::<Node>::empty()];
        assert(start.drop_last().push(start.last() + tree) =~~= seq![tree]);
    }
}

/// The views of a stack of blocks.
pub open spec fn blocks_of(stack: Seq<Vec<Expr>>) -> Seq<Seq<Node>> {
    Seq::new(stack.len(), |k: int| nodes_of(stack[k]@))
}

/// Appends `e` to the innermost open block.
fn push_to_last(stack: &mut Vec<Vec<Expr>>, e: Expr)
    requires
        old(stack)@.len() >= 1,
    ensures
        final(stack)@.len() == old(stack)@.len(),
        blocks_of(final(stack)@) == blocks_of(old(stack)@).drop_last().push(
            blocks_of(old(stack)@).last().push(node_of(e)),
        ),
{
    let ghost before = blocks_of(stack@);
    let mut top = stack.pop().unwrap();
    proof {
        lemma_view_push(top@, e);
    }
    top.push(e);
    stack.push(top);
    assert(blocks_of(stack@) =~= before.drop_last().push(before.last().push(node_of(e))));
}

/// Parses a token sequence into a program tree. Fails if a bracket has no
/// partner.
pub fn parse(tokens: &[Token]) -> (result: Result<Vec<Expr>, ParseError>)
    ensures
        match result {
            Ok(tree) => {
                &&& parsed(tokens@) == Some(tree.deep_view())
                &&& written(tree.deep_view()) == tokens@
                &&& stepwise(tree.deep_view())
                &&& flat_len(tree.deep_view()) == tokens@.len()
            },
            Err(e) => parsed(tokens@) is None && e == ParseError::UnmatchedBracket,
        },
{
    proof {
        lemma_parsed_len(tokens@);
        if let Some(tree) = parsed(tokens@) {
            lemma_parsed_written(tokens@, tree);
        }
    }
    let mut stack: Vec<Vec<Expr>> = Vec::new();
    stack.push(Vec::new());
    let mut i: usize = 0;
    proof {
        assert(tokens@.take(0) =~= Seq::empty());
        assert(blocks_of(stack@) =~~= seq![Seq::<Node>::empty()]);
    }
    while i < tokens.len()
        invariant
            i <= tokens.len(),
            stack@.len() >= 1,
            open_blocks(tokens@.take(i as int)) == Some(blocks_of(stack@)),
        decreases tokens.len() - i,
    {
        proof {
            assert(tokens@.take(i + 1).drop_last() =~= tokens@.take(i as int));
        }
        let ghost before = blocks_of(stack@);
        match tokens[i] {
            Token::MoveRight => push_to_last(&mut stack, Expr::Move(1)),
            Token::MoveLeft => push_to_last(&mut stack, Expr::Move(-1)),
            Token::Increment => push_to_last(&mut stack, Expr::Add(1)),
            Token::Decrement => push_to_last(&mut stack, Expr::Add(-1)),
            Token::Output => push_to_last(&mut stack, Expr::Output),
            Token::Input => push_to_last(&mut stack, Expr::Input),
            Token::Loop => {
                stack.push(Vec::new());
                assert(blocks_of(stack@) =~~= before.push(Seq::empty()));
            },
            Token::EndLoop => {
                if stack.len() < 2 {
                    proof {
                        lemma_open_blocks_fails(tokens@, i + 1);
                    }
                    return Err(ParseError::UnmatchedBracket);
                }
                let body = stack.pop().unwrap();
                proof {
                    lemma_view_loop(body);
                    assert(blocks_of(stack@) =~= before.drop_last());
                }
                push_to_last(&mut stack, Expr::Loop(body));
            },
        }
        i += 1;
    }
    proof {
        assert(tokens@.take(i as int) =~= tokens@);
    }
    if stack.len() == 1 {
        let tree = stack.pop().unwrap();
        proof {
            assert(tree.deep_view() =~= nodes_of(tree@));
        }
        Ok(tree)
    } else {
        Err(ParseError::UnmatchedBracket)
    }
}

} // verus!
