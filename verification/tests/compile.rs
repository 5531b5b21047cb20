use brainfuck::compile::{compile, Instruction};
use brainfuck::parse::Expr;

#[test]
fn test_compile() {
    let e = vec![Expr::Loop(vec![Expr::Add(1), Expr::Output])];
    assert_eq!(
        vec![
            Instruction::JmpEq(4),
            Instruction::Add(1),
            Instruction::Output,
            Instruction::JmpNEq(0),
        ],
        compile(&e, 0)
    );
}

#[test]
fn test_compile_nested_loops() {
    let e = vec![
        Expr::Add(1),
        Expr::Loop(vec![
            Expr::Add(1),
            Expr::Add(1),
            Expr::Loop(vec![Expr::Add(1), Expr::Add(1)]),
            Expr::Add(1),
        ]),
    ];
    assert_eq!(
        vec![
            Instruction::Add(1),
            Instruction::JmpEq(10),
            Instruction::Add(1),
            Instruction::Add(1),
            Instruction::JmpEq(8),
            Instruction::Add(1),
            Instruction::Add(1),
            Instruction::JmpNEq(4),
            Instruction::Add(1),
            Instruction::JmpNEq(1),
        ],
        compile(&e, 0)
    );
}

#[test]
fn compile_empty_tree() {
    assert_eq!(Vec::<Instruction>::new(), compile(&[], 0));
    assert_eq!(Vec::<Instruction>::new(), compile(&[], 17));
}

#[test]
fn compile_empty_loop() {
    let e = vec![Expr::Loop(vec![])];
    assert_eq!(
        vec![Instruction::JmpEq(2), Instruction::JmpNEq(0)],
        compile(&e, 0)
    );
}

#[test]
fn compile_leaves_map_one_to_one() {
    let e = vec![
        Expr::Move(5),
        Expr::Move(-3),
        Expr::Add(7),
        Expr::Add(-9),
        Expr::Output,
        Expr::Input,
    ];
    assert_eq!(
        vec![
            Instruction::Move(5),
            Instruction::Move(-3),
            Instruction::Add(7),
            Instruction::Add(-9),
            Instruction::Output,
            Instruction::Input,
        ],
        compile(&e, 0)
    );
}

#[test]
fn compile_threads_the_offset() {
    let e = vec![Expr::Output, Expr::Loop(vec![Expr::Loop(vec![Expr::Input])])];
    assert_eq!(
        vec![
            Instruction::Output,
            Instruction::JmpEq(106),
            Instruction::JmpEq(105),
            Instruction::Input,
            Instruction::JmpNEq(102),
            Instruction::JmpNEq(101),
        ],
        compile(&e, 100)
    );
}

#[test]
fn compile_two_loops_in_a_row() {
    let e = vec![
        Expr::Loop(vec![Expr::Add(-1)]),
        Expr::Loop(vec![Expr::Move(1)]),
    ];
    assert_eq!(
        vec![
            Instruction::JmpEq(3),
            Instruction::Add(-1),
            Instruction::JmpNEq(0),
            Instruction::JmpEq(6),
            Instruction::Move(1),
            Instruction::JmpNEq(3),
        ],
        compile(&e, 0)
    );
}

fn assert_paired(code: &[Instruction], base: usize) {
    for (i, ins) in code.iter().enumerate() {
        match *ins {
            Instruction::JmpEq(t) => {
                assert!(t >= base + i + 2);
                assert!(t - 1 - base < code.len());
                assert_eq!(code[t - 1 - base], Instruction::JmpNEq(base + i));
                for (k, other) in code.iter().enumerate().skip(i + 1) {
                    if let Instruction::JmpEq(u) = *other {
                        assert!(t - 1 - base < k || u <= t - 1);
                    }
                }
            }
            Instruction::JmpNEq(h) => {
                assert!(h >= base && h - base < i);
                assert_eq!(code[h - base], Instruction::JmpEq(base + i + 1));
            }
            _ => {}
        }
    }
}

#[test]
fn compiled_jumps_pair_up() {
    let nested = vec![
        Expr::Add(1),
        Expr::Loop(vec![
            Expr::Add(1),
            Expr::Add(1),
            Expr::Loop(vec![Expr::Add(1), Expr::Add(1)]),
            Expr::Add(1),
        ]),
    ];
    assert_paired(&compile(&nested, 0), 0);
    assert_paired(&compile(&nested, 40), 40);
    let wide = vec![
        Expr::Loop(vec![Expr::Loop(vec![]), Expr::Loop(vec![Expr::Output])]),
        Expr::Input,
        Expr::Loop(vec![Expr::Loop(vec![Expr::Loop(vec![Expr::Move(1)])])]),
    ];
    let code = compile(&wide, 0);
    assert_eq!(code.len(), 15);
    assert_paired(&code, 0);
}
