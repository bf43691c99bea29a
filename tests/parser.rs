use aeg::ast::{CondExpr, Expr, FenceType, Init, LogicExpr, LogicInt, Statement};
use aeg::{parse, ParseError};

#[test]
fn parse_program() {
    let source = r#"
        let x: u32 = 0;
        let y: u32 = 0;
        thread t1 {
            x = 1;
            Fence(WR);
            let a: u32 = x;
        }
        thread t2 {
            y = 1;
            Fence(WR);
            let b: u32 = x;
        }
        final {
            assert( !( t1.a == 0 && t2.b == 0 ) );
        }
        "#;
    let program = parse(source).unwrap();
    assert_eq!(program.global_vars, vec!["x".to_string(), "y".to_string()]);
    assert_eq!(program.init[0], Init::Assign("x".to_string(), Expr::Num(0)));
    assert_eq!(program.threads.len(), 2);
    assert_eq!(program.threads[0].instructions[1], Statement::Fence(FenceType::WR));
    assert_eq!(
        program.assert[0],
        LogicExpr::Neg(Box::new(LogicExpr::And(
            Box::new(LogicExpr::Eq(LogicInt::LogicVar("t1".to_owned(), "a".to_owned()), LogicInt::Num(0))),
            Box::new(LogicExpr::Eq(LogicInt::LogicVar("t2".to_owned(), "b".to_owned()), LogicInt::Num(0))),
        )))
    );
}

#[test]
fn parse_if_and_while() {
    let source = r#"
        let x: u32 = 0;
        thread t1 {
            if (x == 0) { y = 1; } else { y = 2; }
            while (x == 0) { y = 1; }
        }
        final {}
        "#;
    let program = parse(source).unwrap();
    assert_eq!(
        program.threads[0].instructions[0],
        Statement::If(
            CondExpr::Eq(Expr::Var("x".to_owned()), Expr::Num(0)),
            vec![Statement::Modify("y".to_owned(), Expr::Num(1))],
            vec![Statement::Modify("y".to_owned(), Expr::Num(2))],
        )
    );
    assert_eq!(
        program.threads[0].instructions[1],
        Statement::While(
            CondExpr::Eq(Expr::Var("x".to_owned()), Expr::Num(0)),
            vec![Statement::Modify("y".to_owned(), Expr::Num(1))],
        )
    );
}

#[test]
fn parse_refuses_shadowing() {
    let source = r#"
        let x: u32 = 0;
        thread t1 {
            let x: u32 = 1;
        }
        final {
            assert( !( t1.a == 0 && t2.b == 0 ) );
        }
        "#;
    assert_eq!(parse(source).unwrap_err(), ParseError::ShadowedGlobal("x".to_string()));
}

#[test]
fn parse_refuses_bad_text() {
    assert!(matches!(parse("let x: u32 = ;"), Err(ParseError::Syntax(_))));
    assert!(matches!(
        parse("let x: u32 = 99999999999; final {}"),
        Err(ParseError::NumberTooLarge(_))
    ));
}
