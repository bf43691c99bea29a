use aeg::ast::{Expr, Init, LogicExpr, LogicInt, Program};
use aeg::{create_aeg, parse, AbstractEventGraph, Aeg, AegEdge, Node};
use petgraph::algo::has_path_connecting;
use petgraph::graph::NodeIndex;
use petgraph::visit::{EdgeRef, IntoNodeReferences};

fn get_nodes<const N: usize, const M: usize>(
    aeg: &Aeg,
    thread: &str,
    writes: &[&str; N],
    reads: &[&str; M],
) -> ([NodeIndex<usize>; N], [NodeIndex<usize>; M]) {
    let mut write_nodes = vec![];
    let mut read_nodes = vec![];
    let mut wi = 0;
    let mut ri = 0;
    for (id, node) in aeg.node_references() {
        match node {
            Node::Write(t, addr) if t == thread => {
                if wi < writes.len() && writes[wi] == addr.as_str() {
                    write_nodes.push(id);
                    wi += 1;
                } else {
                    panic!()
                }
            }
            Node::Read(t, addr) if t == thread => {
                if ri < reads.len() && reads[ri] == addr.as_str() {
                    read_nodes.push(id);
                    ri += 1;
                } else {
                    panic!()
                }
            }
            _ => {}
        }
    }
    (write_nodes.try_into().unwrap(), read_nodes.try_into().unwrap())
}

fn count(aeg: &Aeg, kind: AegEdge) -> usize {
    aeg.edge_references().filter(|e| *e.weight() == kind).count()
}

#[test]
fn aeg_from_init() {
    let program = Program {
        init: vec![
            Init::Assign("x".to_string(), Expr::Num(1)),
            Init::Assign("y".to_string(), Expr::Num(2)),
            Init::Assign("z".to_string(), Expr::Var("x".to_string())),
        ],
        threads: vec![],
        assert: vec![LogicExpr::Eq(LogicInt::Num(1), LogicInt::Num(1))],
        global_vars: vec!["x".to_string(), "y".to_string(), "z".to_string()],
    };
    let aeg = create_aeg(&program);
    assert_eq!(aeg.node_count(), 0);
    assert_eq!(aeg.edge_count(), 0);
}

#[test]
fn aeg_from_threads() {
    let program = r#"
        let x: u32 = 0;
        let y: u32 = 0;
        thread t1 {
            x = 1;
            let a: u32 = y;
        }
        thread t2 {
            y = 1;
            let b: u32 = x;
        }
        final {
            assert( t1.a == t2.b );
        }"#;
    let program = parse(program).unwrap();
    let aeg = create_aeg(&program);
    assert_eq!(aeg.node_count(), 4);
    assert_eq!(aeg.edge_count(), 6);
    let n = aeg.node_indices().collect::<Vec<_>>();
    assert!(has_path_connecting(&aeg, *n.first().unwrap(), *n.last().unwrap(), None));
}

#[test]
fn transitivity() {
    let program = r#"
        let x: u32 = 0;
        let y: u32 = 0;
        thread t1 {
            x = 0;
            x = 1;
            x = 2;
            x = 3;
        }
        thread t2 {
            x = 4;
            y = 5;
        }
        final {
            assert( t1.a == t2.b );
        }"#;
    let program = parse(program).unwrap();
    let aeg = AbstractEventGraph::new(&program).unwrap();
    assert_eq!(aeg.neighbors(0).len(), 4);
    assert_eq!(aeg.neighbors(1).len(), 3);
    assert_eq!(aeg.neighbors(2).len(), 2);
    assert_eq!(aeg.neighbors(3).len(), 1);
}

#[test]
fn competing_edges() {
    let program = r#"
        let x: u32 = 3;
        thread t1 {
            let a: u32 = x;
        }
        thread t2 {
            let a: u32 = x;
        }
        final {
            assert( t1.a == t2.a );
        }"#;
    let aeg = create_aeg(&parse(program).unwrap());
    assert_eq!(aeg.node_count(), 2);
    assert_eq!(aeg.edge_count(), 0);

    let program = r#"
        let x: u32 = 3;
        thread t1 {
            let a: u32 = x;
            x = 5;
        }
        thread t2 {
            let a: u32 = x;
        }
        final {
            assert( t1.a == t2.a );
        }"#;
    let aeg = create_aeg(&parse(program).unwrap());
    assert_eq!(aeg.node_count(), 3);
    assert_eq!(aeg.edge_count(), 3);

    let program = r#"
        let x: u32 = 3;
        thread t1 {
            let a: u32 = x;
            let b: u32 = x;
        }
        thread t2 {
            let a: u32 = x;
        }
        final {
            assert( t1.a == t2.a );
        }"#;
    let aeg = create_aeg(&parse(program).unwrap());
    assert_eq!(aeg.node_count(), 3);
    assert_eq!(aeg.edge_count(), 1);
}

#[test]
fn aeg_ifs() {
    let program = r#"
    let x: u32 = 0;
    let y: u32 = 0;
    let z: u32 = 0;
    thread t1 {
        let a: u32 = 0;
        x = 42;
        if (1 == 1) {
            y = 1;
        } else {
            a = z;
        }
        x = 1;
    }
    thread t2 {
        let b: u32 = y;
        let c: u32 = z;
        let d: u32 = x;
    }
    final {}
    "#;
    let aeg = create_aeg(&parse(program).unwrap());
    assert_eq!(aeg.node_count(), 7);
    assert_eq!(count(&aeg, AegEdge::ProgramOrder), 6 + 1);
    assert_eq!(count(&aeg, AegEdge::Competing), 3 * 2);
    let ([wx1, wy, wx2], [rz]) = get_nodes(&aeg, "t1", &["x", "y", "x"], &["z"]);
    assert!(aeg.contains_edge(wx1, wy));
    assert!(aeg.contains_edge(wx1, rz));
    assert!(aeg.contains_edge(wy, wx2));
    assert!(aeg.contains_edge(rz, wx2));
}

#[test]
fn aeg_whiles() {
    let program = r#"
    let x: u32 = 0;
    let y: u32 = 0;
    let z: u32 = 0;
    thread t1 {
        x = 32;
        while (x == 0) {
            y = 1;
            y = 2;
        }
        z = 1;
    }
    final {}
    "#;
    let aeg = create_aeg(&parse(program).unwrap());
    assert_eq!(aeg.node_count(), 6);
    assert_eq!(count(&aeg, AegEdge::ProgramOrder), 7);
    assert_eq!(count(&aeg, AegEdge::Competing), 0);
    let ([wx, wy1, wy2, wz], [rx, rx_added]) =
        get_nodes(&aeg, "t1", &["x", "y", "y", "z"], &["x", "x"]);
    assert!(aeg.contains_edge(wx, rx));
    assert!(aeg.contains_edge(rx, wy1));
    assert!(aeg.contains_edge(rx, wz));
    assert!(aeg.contains_edge(wy1, wy2));
    assert!(aeg.contains_edge(wy2, rx_added));
    assert!(aeg.contains_edge(rx_added, wy1));
    assert!(aeg.contains_edge(rx_added, wz));
}

#[test]
fn whiles_no_condition() {
    let program = r#"
    let x: u32 = 0;
    let y: u32 = 0;
    let z: u32 = 0;
    thread t1 {
        let a: u32 = 0;
        x = 32;
        while (a == 0) {
            y = 1;
            a = y;
        }
        z = 1;
    }
    final {}
    "#;
    let aeg = create_aeg(&parse(program).unwrap());
    assert_eq!(aeg.node_count(), 4);
    assert_eq!(count(&aeg, AegEdge::ProgramOrder), 5);
    assert_eq!(count(&aeg, AegEdge::Competing), 0);
    let ([wx, wy, wz], [ry]) = get_nodes(&aeg, "t1", &["x", "y", "z"], &["y"]);
    assert!(aeg.contains_edge(wx, wy));
    assert!(aeg.contains_edge(wy, ry));
    assert!(aeg.contains_edge(ry, wy));
    assert!(aeg.contains_edge(wx, wz));
    assert!(aeg.contains_edge(ry, wz));
}

#[test]
fn whiles_no_body() {
    let program = r#"
        let x: u32 = 0;
        thread t1 {
            let a: u32 = 0;
            x = 0;
            while (x == 0) {
                a = 3;
            }
            x = 1;
        }
        final {}
        "#;
    let aeg = create_aeg(&parse(program).unwrap());
    assert_eq!(aeg.node_count(), 3);
    assert_eq!(count(&aeg, AegEdge::ProgramOrder), 2);
    let ([wx1, wx2], [rx]) = get_nodes(&aeg, "t1", &["x", "x"], &["x"]);
    assert!(aeg.contains_edge(wx1, rx));
    assert!(aeg.contains_edge(rx, wx2));
}

#[test]
fn whiles_no_body_no_condition() {
    let program = r#"
        let x: u32 = 0;
        thread t1 {
            let a: u32 = 0;
            x = 0;
            while (a == 0) {
                a = 3;
            }
            x = 1;
        }
        final {}
        "#;
    let aeg = create_aeg(&parse(program).unwrap());
    assert_eq!(aeg.node_count(), 2);
    assert_eq!(count(&aeg, AegEdge::ProgramOrder), 1);
    let ([wx1, wx2], []) = get_nodes(&aeg, "t1", &["x", "x"], &[]);
    assert!(aeg.contains_edge(wx1, wx2));
}

#[test]
fn while_and_if_with_no_condition() {
    let program = r#"
        let x: u32 = 0;
        let i: u32 = 0;
        let j: u32 = 0;
        let z: u32 = 0;
        thread t1 {
            let a: u32 = 0;
            x = 32;
            while (a == 0) {
                if (a == 0) {
                    i = 1;
                    j = 2;
                } else {
                    a = i;
                    a = j;
                }
            }
            z = 1;
        }
        final {}
        "#;
    let aeg = create_aeg(&parse(program).unwrap());
    assert_eq!(aeg.node_count(), 6);
    assert_eq!(count(&aeg, AegEdge::ProgramOrder), 11);
    let ([before_while, branch_1_1st, branch_1_2nd, after_while], [branch_2_1st, branch_2_2nd]) =
        get_nodes(&aeg, "t1", &["x", "i", "j", "z"], &["i", "j"]);
    assert!(aeg.contains_edge(before_while, after_while));
    assert!(aeg.contains_edge(before_while, branch_1_1st));
    assert!(aeg.contains_edge(before_while, branch_2_1st));
    assert!(aeg.contains_edge(branch_1_1st, branch_1_2nd));
    assert!(aeg.contains_edge(branch_2_1st, branch_2_2nd));
    assert!(aeg.contains_edge(branch_2_2nd, branch_2_1st));
    assert!(aeg.contains_edge(branch_2_2nd, branch_1_1st));
    assert!(aeg.contains_edge(branch_2_2nd, after_while));
    assert!(aeg.contains_edge(branch_1_2nd, branch_1_1st));
    assert!(aeg.contains_edge(branch_1_2nd, branch_2_1st));
    assert!(aeg.contains_edge(branch_1_2nd, after_while));
}
