use aeg::generator::{generate_lamport_program, generate_peterson_program, generate_random_program};
use aeg::ast::{CondExpr, Expr, Statement};
use aeg::parse;

#[test]
fn lamport_program_shape() {
    let p = generate_lamport_program(3);
    assert_eq!(p.global_vars, vec!["x", "y", "b0", "b1", "b2"]);
    assert_eq!(p.threads.len(), 3);
    assert_eq!(p.threads[2].name, "t2");
    assert_eq!(p.threads[0].instructions.len(), 5);
}

#[test]
fn peterson_program_shape() {
    let p = generate_peterson_program(3);
    assert_eq!(p.global_vars, vec!["level0", "level1", "level2", "lastToEnter0", "lastToEnter1"]);
    assert_eq!(p.threads.len(), 3);
    assert_eq!(p.threads[1].instructions.len(), 6);
}

#[test]
fn random_program_shape() {
    let p = generate_random_program(3, 5, 4, 2);
    assert_eq!(p.threads.len(), 3);
    assert_eq!(p.global_vars, vec!["x0", "x1", "x2", "x3"]);
    assert!(p.threads.iter().all(|t| t.instructions.len() == 5));
}

#[test]
fn printed_programs_parse_back() {
    for p in [generate_lamport_program(3), generate_peterson_program(3), generate_random_program(2, 6, 3, 2)] {
        let text = p.to_text();
        let q = parse(&text).unwrap();
        assert_eq!(q.init, p.init);
        assert_eq!(q.global_vars, p.global_vars);
        assert_eq!(q.threads, p.threads);
        assert_eq!(q.assert, p.assert);
    }
}

#[test]
fn printed_statement_text() {
    let s = Statement::While(
        CondExpr::Neg(Box::new(CondExpr::Eq(Expr::Var("y".into()), Expr::Num(10)))),
        vec![Statement::Modify("x".into(), Expr::Num(7))],
    );
    assert_eq!(s.to_text(2), "  while (!(y == 10)) {\n      x = 7;\n  }");
}
