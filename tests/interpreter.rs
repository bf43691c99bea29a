use aeg::ast::{Expr, FenceType, Init, Program, Statement, Thread};
use aeg::interpreter::{execute, init, run_threads, FifoMap, MemoryModel, State};

#[test]
fn test_read_writes_2() {
    let memory_model = MemoryModel::Tso;
    let program = Program { init: vec![], threads: vec![], assert: vec![], global_vars: vec![] };
    assert!(program.threads.is_empty());
    let mut state = State::new(memory_model);
    state.write_buffers.push(("t1".to_string(), FifoMap::new()));
    state.write_buffers[0].1.insert(format!("x"), 0u32);
    state.write("x", 1, "t1");
    state.write("y", 2, "t1");
    state.write("z", 3, "t1");
    assert_ne!(state.read("x"), 1);
    assert_ne!(state.read("y"), 2);
    assert_ne!(state.read("z"), 3);
    state.flush_write_buffer("t1");
    assert_eq!(state.read("x"), 1);
    assert_eq!(state.read("y"), 2);
    assert_eq!(state.read("z"), 3);
}

#[test]
fn test_sc_writes() {
    let memory_model = MemoryModel::Sc;
    let mut state = State::new(memory_model);
    state.write("x", 1, "main");
    state.write("y", 2, "main");
    state.write("z", 3, "main");
    assert_eq!(state.read("x"), 1);
    assert_eq!(state.read("y"), 2);
    assert_eq!(state.read("z"), 3);
    state.write_local("t1", "x", 11);
    state.write_local("t2", "y", 22);
    state.write_local("t2", "z", 33);
    assert_eq!(state.read("x"), 1);
    assert_eq!(state.read("y"), 2);
    assert_eq!(state.read("z"), 3);
    assert_eq!(state.read_local("t1", "x"), 11);
    assert_eq!(state.read_local("t2", "y"), 22);
    assert_eq!(state.read_local("t2", "z"), 33);
}

#[test]
fn fifo_map_keeps_insertion_order() {
    let mut m = FifoMap::new();
    m.insert("a".to_string(), 1);
    m.insert("b".to_string(), 2);
    m.insert("a".to_string(), 3);
    assert_eq!(m.remove(), Some(("a".to_string(), 3)));
    assert_eq!(m.remove(), Some(("b".to_string(), 2)));
    assert_eq!(m.remove(), None);
}

#[test]
fn fenced_reads_see_own_writes() {
    let program = Program {
        init: vec![
            Init::Assign("x".to_string(), Expr::Num(10)),
            Init::Assign("y".to_string(), Expr::Num(20)),
        ],
        threads: vec![Thread {
            name: "t1".to_string(),
            instructions: vec![
                Statement::Modify("x".to_string(), Expr::Num(100)),
                Statement::Modify("y".to_string(), Expr::Num(200)),
                Statement::Fence(FenceType::WR),
                Statement::Assign("fx".to_string(), Expr::Var("x".to_string())),
                Statement::Assign("fy".to_string(), Expr::Var("y".to_string())),
            ],
        }],
        assert: vec![aeg::ast::LogicExpr::Eq(
            aeg::ast::LogicInt::LogicVar("t1".to_string(), "fx".to_string()),
            aeg::ast::LogicInt::Num(100),
        )],
        global_vars: vec!["x".to_string(), "y".to_string()],
    };
    assert_eq!(execute(&program, MemoryModel::Tso), Ok(true));
    assert_eq!(execute(&program, MemoryModel::Sc), Ok(true));
}

#[test]
fn test_local_global_vars() {
    let memory_model = MemoryModel::Tso;
    let init_block = vec![Init::Assign("x".to_string(), Expr::Num(10))];
    let threads = vec![Thread {
        name: "t1".to_string(),
        instructions: vec![Statement::Assign("x".to_string(), Expr::Num(100))],
    }];
    let program = Program { init: init_block, threads, assert: vec![], global_vars: vec![] };
    let mut state = State::new(memory_model);
    init(&program.init, &mut state);
    run_threads(&program.threads, &mut state);
    assert_eq!(state.read("x"), 10);
    assert_eq!(state.read_local("t1", "x"), 100);
}

#[test]
fn test_read_writes() {
    let memory_model = MemoryModel::Tso;
    let init_block = vec![
        Init::Assign("x".to_string(), Expr::Num(10)),
        Init::Assign("y".to_string(), Expr::Num(20)),
        Init::Assign("z".to_string(), Expr::Num(30)),
    ];
    let threads = vec![Thread {
        name: "t1".to_string(),
        instructions: vec![
            Statement::Modify("x".to_string(), Expr::Num(100)),
            Statement::Modify("y".to_string(), Expr::Num(200)),
            Statement::Modify("z".to_string(), Expr::Num(300)),
            Statement::Fence(FenceType::WR),
            Statement::Assign("fencedX".to_string(), Expr::Var("x".to_string())),
            Statement::Assign("fencedY".to_string(), Expr::Var("y".to_string())),
            Statement::Assign("fencedZ".to_string(), Expr::Var("z".to_string())),
        ],
    }];
    let program = Program { init: init_block, threads, assert: vec![], global_vars: vec![] };
    let mut state = State::new(memory_model);
    init(&program.init, &mut state);
    run_threads(&program.threads, &mut state);
    assert_eq!(state.read_local("t1", "fencedX"), 100);
    assert_eq!(state.read_local("t1", "fencedY"), 200);
    assert_eq!(state.read_local("t1", "fencedZ"), 300);
}

#[test]
fn test_thread_end() {
    let mut assertion_failed = false;
    for _ in 0..100 {
        let memory_model = MemoryModel::Tso;
        let init_block = vec![Init::Assign("x".to_string(), Expr::Num(10))];
        let threads = vec![Thread {
            name: "t1".to_string(),
            instructions: vec![Statement::Modify("x".to_string(), Expr::Num(100))],
        }];
        let program = Program { init: init_block, threads, assert: vec![], global_vars: vec![] };
        let mut state = State::new(memory_model);
        run_threads(&program.threads, &mut state);
        if state.read("x") != 100 {
            assertion_failed = true;
            break;
        }
    }
    assert!(assertion_failed, "The assertion was never false in 100 runs.");
}
