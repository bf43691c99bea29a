use aeg::ast::{Expr, FenceType, Init, LogicExpr, LogicInt, Program, Statement, Thread};
use aeg::check::{check, check_expression, check_logic_int, Error};

#[test]
fn check_expression_undefined() {
    let expr = Expr::Var("x".to_owned());
    let globals: Vec<String> = vec![];
    let locals: Vec<String> = vec![];
    let result = check_expression(&expr, &globals, &locals);
    assert_eq!(result, Err(Error::UndefinedExpr(expr)));
}

#[test]
fn check_expression_global() {
    let expr = Expr::Var("x".to_owned());
    let globals = vec!["x".to_owned()];
    let locals: Vec<String> = vec![];
    let result = check_expression(&expr, &globals, &locals);
    assert_eq!(result, Ok(()));
}

#[test]
fn check_expression_local() {
    let expr = Expr::Var("x".to_owned());
    let globals: Vec<String> = vec![];
    let locals = vec!["x".to_owned()];
    let result = check_expression(&expr, &globals, &locals);
    assert_eq!(result, Ok(()));
}

#[test]
fn assert_logic_int_undefined_thread() {
    let logic_var = LogicInt::LogicVar("t1".to_owned(), "x".to_owned());
    let locals: Vec<(String, Vec<String>)> = vec![];
    let result = check_logic_int(&logic_var, &locals);
    assert_eq!(result, Err(Error::UndefinedLogic(logic_var)));
}

#[test]
fn assert_logic_int_undefined_var() {
    let logic_var = LogicInt::LogicVar("t1".to_owned(), "x".to_owned());
    let locals = vec![("t1".to_owned(), vec![])];
    let result = check_logic_int(&logic_var, &locals);
    assert_eq!(result, Err(Error::UndefinedLogic(logic_var)));
}

#[test]
fn check_valid_program() {
    let program = Program {
        init: Vec::from([
            Init::Assign("x".to_owned(), Expr::Num(0)),
            Init::Assign("y".to_owned(), Expr::Num(0)),
        ]),
        threads: Vec::from([
            Thread {
                name: "t1".to_owned(),
                instructions: Vec::from([
                    Statement::Modify("x".to_owned(), Expr::Num(1)),
                    Statement::Fence(FenceType::WR),
                    Statement::Assign("a".to_owned(), Expr::Var("x".to_owned())),
                ]),
            },
            Thread {
                name: "t2".to_owned(),
                instructions: Vec::from([
                    Statement::Modify("y".to_owned(), Expr::Num(1)),
                    Statement::Fence(FenceType::WR),
                    Statement::Assign("b".to_owned(), Expr::Var("x".to_owned())),
                ]),
            },
        ]),
        assert: Vec::from([LogicExpr::Neg(Box::from(LogicExpr::And(
            Box::from(LogicExpr::Eq(LogicInt::LogicVar("t1".to_owned(), "a".to_owned()), LogicInt::Num(0))),
            Box::from(LogicExpr::Eq(LogicInt::LogicVar("t2".to_owned(), "b".to_owned()), LogicInt::Num(0))),
        )))]),
        global_vars: vec![],
    };
    assert_eq!(check(&program), Ok(()));
}

#[test]
fn check_rejects_duplicate_thread() {
    let program = Program {
        init: vec![],
        threads: vec![
            Thread { name: "t1".to_owned(), instructions: vec![] },
            Thread { name: "t1".to_owned(), instructions: vec![] },
        ],
        assert: vec![],
        global_vars: vec![],
    };
    assert!(matches!(check(&program), Err(Error::DuplicateThread(_))));
}

#[test]
fn check_rejects_duplicate_local() {
    let program = Program {
        init: vec![],
        threads: vec![Thread {
            name: "t1".to_owned(),
            instructions: vec![
                Statement::Assign("a".to_owned(), Expr::Num(1)),
                Statement::Assign("a".to_owned(), Expr::Num(2)),
            ],
        }],
        assert: vec![],
        global_vars: vec![],
    };
    assert_eq!(
        check(&program),
        Err(Error::DuplicateAssign(Statement::Assign("a".to_owned(), Expr::Num(2))))
    );
}

#[test]
fn check_rejects_undefined_modify_and_init() {
    let program = Program {
        init: vec![],
        threads: vec![Thread {
            name: "t1".to_owned(),
            instructions: vec![Statement::Modify("z".to_owned(), Expr::Num(1))],
        }],
        assert: vec![],
        global_vars: vec![],
    };
    assert_eq!(
        check(&program),
        Err(Error::UndefinedModify(Statement::Modify("z".to_owned(), Expr::Num(1))))
    );
    let program = Program {
        init: vec![Init::Assign("x".to_owned(), Expr::Var("y".to_owned()))],
        threads: vec![],
        assert: vec![],
        global_vars: vec![],
    };
    assert_eq!(
        check(&program),
        Err(Error::UndefinedInit(Init::Assign("x".to_owned(), Expr::Var("y".to_owned()))))
    );
}
