use brainfuck::optimize::{compress_repeated, filter_noops, optimize};
use brainfuck::parse::Expr;

#[test]
fn optimize_fuses_moves() {
    assert_eq!(
        vec![Expr::Move(1)],
        optimize(&[Expr::Move(1), Expr::Move(1), Expr::Move(-1)])
    );
}

#[test]
fn optimize_fuses_adds() {
    assert_eq!(
        vec![Expr::Add(3)],
        optimize(&[Expr::Add(1), Expr::Add(1), Expr::Add(1)])
    );
}

#[test]
fn optimize_empty() {
    assert_eq!(Vec::<Expr>::new(), optimize(&[]));
}

#[test]
fn optimize_removes_cancelled_runs() {
    assert_eq!(
        Vec::<Expr>::new(),
        optimize(&[Expr::Add(1), Expr::Add(-1)])
    );
    assert_eq!(
        vec![Expr::Output],
        optimize(&[Expr::Move(1), Expr::Move(-1), Expr::Output, Expr::Add(0)])
    );
}

#[test]
fn optimize_keeps_empty_loops() {
    assert_eq!(
        vec![Expr::Loop(vec![])],
        optimize(&[Expr::Loop(vec![Expr::Add(1), Expr::Add(-1)])])
    );
    assert_eq!(vec![Expr::Loop(vec![])], optimize(&[Expr::Loop(vec![])]));
}

#[test]
fn optimize_does_not_fuse_across_a_loop() {
    assert_eq!(
        vec![
            Expr::Add(2),
            Expr::Loop(vec![Expr::Add(-1)]),
            Expr::Add(2),
        ],
        optimize(&[
            Expr::Add(1),
            Expr::Add(1),
            Expr::Loop(vec![Expr::Add(-1)]),
            Expr::Add(1),
            Expr::Add(1),
        ])
    );
}

#[test]
fn optimize_works_inside_loops() {
    assert_eq!(
        vec![Expr::Loop(vec![
            Expr::Move(2),
            Expr::Loop(vec![Expr::Add(-2), Expr::Output]),
            Expr::Input,
        ])],
        optimize(&[Expr::Loop(vec![
            Expr::Move(1),
            Expr::Move(1),
            Expr::Add(0),
            Expr::Loop(vec![Expr::Add(-1), Expr::Add(-1), Expr::Move(0), Expr::Output]),
            Expr::Input,
        ])])
    );
}

#[test]
fn optimize_does_not_fuse_moves_with_adds() {
    let tree = vec![
        Expr::Move(1),
        Expr::Add(1),
        Expr::Move(1),
        Expr::Output,
        Expr::Output,
        Expr::Input,
        Expr::Input,
    ];
    assert_eq!(tree.clone(), optimize(&tree));
}

#[test]
fn optimize_sums_wrap() {
    assert_eq!(
        vec![Expr::Move(i32::MIN)],
        optimize(&[Expr::Move(i32::MAX), Expr::Move(1)])
    );
    assert_eq!(
        vec![Expr::Add(i32::MAX)],
        optimize(&[Expr::Add(i32::MIN), Expr::Add(-1)])
    );
}

#[test]
fn compress_starts_from_a_neutral_add() {
    assert_eq!(vec![Expr::Add(0)], compress_repeated(&[]));
    assert_eq!(
        vec![Expr::Add(0), Expr::Move(2)],
        compress_repeated(&[Expr::Move(1), Expr::Move(1)])
    );
    assert_eq!(
        vec![Expr::Add(2), Expr::Output],
        compress_repeated(&[Expr::Add(1), Expr::Add(1), Expr::Output])
    );
    assert_eq!(
        vec![Expr::Add(0), Expr::Loop(vec![Expr::Add(0), Expr::Move(0)])],
        compress_repeated(&[Expr::Loop(vec![Expr::Move(1), Expr::Move(-1)])])
    );
}

#[test]
fn filter_removes_only_noops() {
    assert_eq!(
        vec![
            Expr::Move(1),
            Expr::Add(-1),
            Expr::Loop(vec![Expr::Loop(vec![])]),
            Expr::Output,
            Expr::Input,
        ],
        filter_noops(vec![
            Expr::Move(0),
            Expr::Move(1),
            Expr::Add(0),
            Expr::Add(-1),
            Expr::Loop(vec![Expr::Add(0), Expr::Loop(vec![Expr::Move(0)])]),
            Expr::Output,
            Expr::Input,
        ])
    );
}

fn has_noop(tree: &[Expr]) -> bool {
    tree.iter().any(|e| match e {
        Expr::Move(0) | Expr::Add(0) => true,
        Expr::Loop(body) => has_noop(body),
        _ => false,
    })
}

fn count_loops(tree: &[Expr]) -> usize {
    tree.iter()
        .map(|e| match e {
            Expr::Loop(body) => 1 + count_loops(body),
            _ => 0,
        })
        .sum()
}

fn samples() -> Vec<Vec<Expr>> {
    vec![
        vec![],
        vec![Expr::Add(0)],
        vec![Expr::Move(1), Expr::Move(-1), Expr::Add(1), Expr::Add(-1)],
        vec![Expr::Loop(vec![Expr::Loop(vec![Expr::Add(1), Expr::Add(-1)])])],
        vec![
            Expr::Add(1),
            Expr::Loop(vec![Expr::Move(1), Expr::Add(2), Expr::Add(-2), Expr::Move(-1)]),
            Expr::Move(0),
            Expr::Loop(vec![]),
            Expr::Output,
        ],
        vec![Expr::Move(1), Expr::Add(1), Expr::Add(-1), Expr::Move(1)],
    ]
}

#[test]
fn optimized_trees_hold_no_noops_and_keep_their_loops() {
    for tree in samples() {
        let better = optimize(&tree);
        assert!(!has_noop(&better));
        assert_eq!(count_loops(&tree), count_loops(&better));
    }
}

#[test]
fn optimize_twice_is_optimize_once_on_fused_results() {
    let trees = vec![
        vec![],
        vec![Expr::Move(1), Expr::Move(1), Expr::Move(-1)],
        vec![Expr::Add(1), Expr::Add(1), Expr::Add(1)],
        vec![
            Expr::Add(1),
            Expr::Loop(vec![Expr::Add(1), Expr::Add(1), Expr::Loop(vec![Expr::Move(1), Expr::Move(1)])]),
            Expr::Move(-1),
            Expr::Output,
            Expr::Add(1),
            Expr::Add(2),
        ],
    ];
    for tree in trees {
        let once = optimize(&tree);
        let twice = optimize(&once);
        assert_eq!(once, twice);
    }
}

#[test]
fn moves_meet_where_what_stood_between_them_cancels() {
    let tree = vec![Expr::Move(1), Expr::Add(1), Expr::Add(-1), Expr::Move(1)];
    let once = optimize(&tree);
    assert_eq!(vec![Expr::Move(1), Expr::Move(1)], once);
    assert_eq!(vec![Expr::Move(2)], optimize(&once));
}
