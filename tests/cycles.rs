use aeg::{all_simple_po_paths, critical_cycles, parse, AbstractEventGraph, AegConfig, Architecture};
use itertools::Itertools;

fn aeg_of(source: &str, architecture: Architecture) -> AbstractEventGraph {
    AbstractEventGraph::with_config(&parse(source).unwrap(), AegConfig { architecture, skip_branches: false }).unwrap()
}

const STORE_BUFFER: &str = r#"
        let x: u32 = 0;
        let y: u32 = 0;
        thread t1 {
            x = 1;
            let a: u32 = y;
        }
        thread t2 {
            y = 1;
            let b: u32 = x;
        }
        final {
            // the following is possible under tso
            assert( !(t1.a == 0 && t1.b == 0) );
        }"#;

#[test]
fn simple_critical_cycle() {
    let mut aeg = AbstractEventGraph::new(&parse(STORE_BUFFER).unwrap()).unwrap();
    let ccs = critical_cycles(&aeg);
    assert_eq!(ccs.len(), 1);
    aeg.config.architecture = Architecture::Power;
    let ccs = critical_cycles(&aeg);
    assert_eq!(ccs.len(), 1);
}

#[test]
fn simple_critical_cycle_skip() {
    let aeg = aeg_of(STORE_BUFFER, Architecture::Power);
    let ccs = critical_cycles(&aeg);
    assert_eq!(ccs.len(), 1);
}

#[test]
fn store_buffer_fences_cover_both_threads() {
    let aeg = AbstractEventGraph::new(&parse(STORE_BUFFER).unwrap()).unwrap();
    let ccs = aeg.tso_critical_cycles();
    assert_eq!(ccs.len(), 1);
    assert_eq!(ccs[0].potential_fences.len(), 2);
    assert_eq!(ccs[0].cycle.len(), 4);
}

#[test]
fn dont_sit_fig_16() {
    let program = r#"
        let x: u32 = 0;
        let y: u32 = 0;
        let z: u32 = 0;
        let t: u32 = 0;
        thread t1 {
            t = 1;
            y = 1;
        }
        thread t2 {
            let a: u32 = z;
            x = 2;
        }
        thread t3 {
            let a: u32 = x;
            let b: u32 = y;
            z = 3;
            let c: u32 = t;
        }
        thread t4 {
            let a: u32 = z;
            y = 4;
        }
        thread t5 {
            t = 5;
            let a: u32 = z;
        }
        final {
            assert( 0 == 0 );
        }
        "#;
    let mut aeg = aeg_of(program, Architecture::Power);
    let ccs = critical_cycles(&aeg);
    assert_eq!(ccs.len(), 9);
    aeg.config.architecture = Architecture::Tso;
    let ccs = critical_cycles(&aeg);
    assert_eq!(ccs.len(), 2);
    assert_eq!(ccs[0].potential_fences.len(), 2)
}

#[test]
fn multiple_ccs_one_source() {
    let program = r#"
        let x: u32 = 0;
        let y: u32 = 0;
        thread t1 {
            x = 1;
            let a: u32 = y;
            let b: u32 = y;
        }
        thread t2 {
            y = 1;
            let d: u32 = x;
        }
        final {}
        "#;
    let aeg = AbstractEventGraph::new(&parse(program).unwrap()).unwrap();
    assert_eq!(critical_cycles(&aeg).len(), 2);

    let program = r#"
        let x: u32 = 0;
        let y: u32 = 0;
        thread t1 {
            x = 1;
            let a: u32 = y;
            let b: u32 = x;
        }
        thread t2 {
            y = 1;
            let d: u32 = x;
        }
        final {}
        "#;
    let aeg = AbstractEventGraph::new(&parse(program).unwrap()).unwrap();
    assert_eq!(critical_cycles(&aeg).len(), 1);
}

#[test]
fn fence_covering_the_only_delay_breaks_the_cycle() {
    let program = r#"
        let x: u32 = 0;
        let y: u32 = 0;
        thread t1 {
            x = 1;
            Fence(WR);
            let a: u32 = y;
        }
        thread t2 {
            y = 1;
            let b: u32 = y;
            x = 2;
        }
        final {}
        "#;
    let ccs = critical_cycles(&aeg_of(program, Architecture::Tso));
    assert_eq!(ccs.len(), 0);
}

#[test]
fn cartesian_product() {
    let paths = vec![
        vec![vec![0, 5, 1]],
        vec![vec![2, 6, 3], vec![2, 7, 8, 3]],
        vec![vec![4, 6], vec![4, 5, 6]],
    ];
    let p = paths.iter().fold(vec![vec![]], |acc, e| {
        acc.iter()
            .cartesian_product(e)
            .map(|(t1, t2)| t1.into_iter().chain(t2.into_iter()).copied().collect::<Vec<_>>())
            .collect()
    });
    assert_eq!(p.len(), 4);
    assert_eq!(p[0], vec![0, 5, 1, 2, 6, 3, 4, 6]);
}

#[test]
fn simple_paths_whiles() {
    let program = r#"
        let x: u32 = 0;
        thread t1 {
            while (x == 0) {
                x = 1;
            }
            x = 2;
        }
        final {}
        "#;
    let aeg = AbstractEventGraph::new(&parse(program).unwrap()).unwrap();
    let last = aeg.graph.node_count() - 1;
    let paths = all_simple_po_paths(&aeg, 0, last, 0, None);
    assert_eq!(paths.len(), 2);
}

#[test]
fn cycle_straddling_an_if_has_a_record_per_po_path() {
    let program = r#"
        let x: u32 = 0;
        let y: u32 = 0;
        let z: u32 = 0;
        thread t1 {
            let a: u32 = 0;
            x = 42;
            if (1 == 1) {
                y = 1;
            } else {
                a = z;
            }
            y = 1;
        }
        thread t2 {
            let b: u32 = y;
            let c: u32 = z;
            let d: u32 = x;
        }
        final {}
        "#;
    let ccs = critical_cycles(&aeg_of(program, Architecture::Power));
    // The cycle through the write after the if: one record per po path
    // across it (then branch, else branch, skip connection); and the cycle
    // through the write inside the then branch.
    let across: Vec<_> = ccs.iter().filter(|cc| cc.cycle == vec![0, 3, 4, 6]).collect();
    assert_eq!(across.len(), 3);
    let mut sizes: Vec<usize> = across.iter().map(|cc| cc.potential_fences.len()).collect();
    sizes.sort();
    assert_eq!(sizes, vec![3, 4, 4]);
    assert!(ccs.iter().any(|cc| cc.cycle == vec![0, 1, 4, 6] && cc.potential_fences.len() == 3));
    assert_eq!(ccs.len(), 4);
}

#[test]
fn simple_paths_across_an_if_include_the_skip_connection() {
    let program = r#"
        let x: u32 = 0;
        let y: u32 = 0;
        let z: u32 = 0;
        thread t1 {
            let a: u32 = 0;
            x = 42;
            if (1 == 1) {
                y = 1;
            } else {
                a = z;
            }
            x = 1;
        }
        final {}
        "#;
    let aeg = AbstractEventGraph::new(&parse(program).unwrap()).unwrap();
    let paths = all_simple_po_paths(&aeg, 0, 3, 0, None);
    assert_eq!(paths, vec![vec![0, 3], vec![0, 2, 3], vec![0, 1, 3]]);
    // At least one node between the ends leaves out the skip connection.
    assert_eq!(all_simple_po_paths(&aeg, 0, 3, 1, None).len(), 2);
    assert_eq!(all_simple_po_paths(&aeg, 0, 3, 0, Some(0)), vec![vec![0, 3]]);
}

#[test]
fn cycle_over_a_while_has_a_record_per_loop_path() {
    let program = r#"
        let x: u32 = 0;
        let y: u32 = 0;
        let z: u32 = 0;
        thread t1 {
            y = 1;
            while (x == 0) {
                x = 1;
            }
            z = 1;
        }
        thread t2 {
            let a: u32 = z;
            let b: u32 = y;
        }
        final {}
        "#;
    let aeg = aeg_of(program, Architecture::Power);
    assert_eq!(aeg.graph.node_count(), 7);
    let ccs = critical_cycles(&aeg);
    // Wy, Wz, Rz, Ry; the loop may be skipped or run.
    assert_eq!(ccs.len(), 2);
    assert!(ccs.iter().all(|cc| cc.cycle == vec![0, 4, 5, 6]));
}

#[test]
fn pure_local_program_has_no_events() {
    let program = r#"
        let x: u32 = 0;
        thread t1 {
            let a: u32 = 1;
            a = 2;
            if (a == 2) { a = 3; } else { a = 4; }
            while (a == 0) { a = 1; }
        }
        thread t2 {
            let b: u32 = 5;
        }
        final {}
        "#;
    let aeg = AbstractEventGraph::new(&parse(program).unwrap()).unwrap();
    assert_eq!(aeg.graph.node_count(), 0);
    assert_eq!(aeg.graph.edge_count(), 0);
    assert!(critical_cycles(&aeg).is_empty());
}

#[test]
fn reported_cycles_respect_the_minimality_rules() {
    let program = r#"
        let x: u32 = 0;
        let y: u32 = 0;
        let z: u32 = 0;
        thread t1 { x = 1; let a: u32 = y; z = 1; }
        thread t2 { y = 1; let b: u32 = z; let c: u32 = x; }
        thread t3 { z = 2; let d: u32 = x; }
        final {}
        "#;
    for arch in [Architecture::Tso, Architecture::Power] {
        let aeg = aeg_of(program, arch);
        let ccs = critical_cycles(&aeg);
        assert!(!ccs.is_empty());
        for cc in &ccs {
            assert!(cc.cycle.len() >= 3);
            for &e in &cc.potential_fences {
                assert_eq!(aeg.graph.raw_edges()[e].weight, aeg::AegEdge::ProgramOrder);
            }
            let n = cc.cycle.len();
            let mut tso_delay = false;
            for i in 0..n {
                let u = &aeg.graph.raw_nodes()[cc.cycle[i]].weight;
                let v = &aeg.graph.raw_nodes()[cc.cycle[(i + 1) % n]].weight;
                if u.thread_name() == v.thread_name() {
                    assert_ne!(u.address(), v.address());
                    if matches!(u, aeg::Node::Write(..)) && matches!(v, aeg::Node::Read(..)) {
                        tso_delay = true;
                    }
                }
            }
            if arch == Architecture::Tso {
                assert!(tso_delay);
            }
        }
    }
}

#[test]
fn competing_edges_come_in_pairs_between_threads() {
    let aeg = AbstractEventGraph::new(&parse(STORE_BUFFER).unwrap()).unwrap();
    let edges = aeg.graph.raw_edges();
    let competing: Vec<_> = edges.iter().filter(|e| e.weight == aeg::AegEdge::Competing).collect();
    assert_eq!(competing.len(), 4);
    for e in &competing {
        assert!(competing.iter().any(|f| f.source() == e.target() && f.target() == e.source()));
        let u = &aeg.graph.raw_nodes()[e.source().index()].weight;
        let v = &aeg.graph.raw_nodes()[e.target().index()].weight;
        assert_ne!(u.thread_name(), v.thread_name());
        assert_eq!(u.address(), v.address());
    }
    for e in edges.iter().filter(|e| e.weight == aeg::AegEdge::ProgramOrder) {
        let u = &aeg.graph.raw_nodes()[e.source().index()].weight;
        let v = &aeg.graph.raw_nodes()[e.target().index()].weight;
        assert_eq!(u.thread_name(), v.thread_name());
    }
}

#[test]
fn po_connection_follows_po_edges() {
    let program = r#"
        let x: u32 = 0;
        thread t1 {
            x = 1;
            while (x == 0) { x = 2; }
            x = 3;
        }
        thread t2 { let a: u32 = x; }
        final {}
        "#;
    let aeg = AbstractEventGraph::new(&parse(program).unwrap()).unwrap();
    // Wx0 -> Rx1 -> Wx2 -> Rx3 -> Wx2 (back edge), Rx1/Rx3 -> Wx4.
    assert!(aeg.is_po_connected(0, 4));
    assert!(!aeg.is_po_connected(0, 0));
    assert!(aeg.is_po_connected(2, 2));
    assert!(!aeg.is_po_connected(4, 0));
    assert!(!aeg.is_po_connected(0, 5));
    let mut close = aeg.close_po_neighbors(1);
    close.sort();
    assert_eq!(close, vec![2, 4]);
}

#[test]
fn unsupported_fence_is_refused() {
    let program = r#"
        let x: u32 = 0;
        thread t1 { x = 1; Fence(WW); x = 2; }
        final {}
        "#;
    let r = AbstractEventGraph::new(&parse(program).unwrap());
    assert_eq!(r.unwrap_err(), aeg::AegError::UnsupportedFence(aeg::ast::FenceType::WW));
}

#[test]
fn po_between_finds_a_po_path() {
    let program = r#"
        let x: u32 = 0;
        thread t1 {
            x = 1;
            while (x == 0) { x = 2; }
            x = 3;
        }
        thread t2 { let a: u32 = x; }
        final {}
        "#;
    let aeg = AbstractEventGraph::new(&parse(program).unwrap()).unwrap();
    let path = aeg.po_between(0, 4).unwrap();
    assert_eq!(path.first(), Some(&0));
    assert_eq!(path.last(), Some(&4));
    assert_eq!(path, vec![0, 1, 4]);
    assert_eq!(aeg.po_between(4, 0), None);
    assert_eq!(aeg.po_between(0, 5), None);
}

#[test]
fn program_order_dfs_visits_po_successors_once() {
    let program = r#"
        let x: u32 = 0;
        thread t1 {
            x = 1;
            while (x == 0) { x = 2; }
            x = 3;
        }
        thread t2 { let a: u32 = x; }
        final {}
        "#;
    let aeg = AbstractEventGraph::new(&parse(program).unwrap()).unwrap();
    let mut dfs = aeg::ProgramOrderDfs::new(&aeg, 0);
    let mut seen = vec![];
    while let Some(n) = dfs.next(&aeg) {
        seen.push(n);
    }
    seen.sort();
    assert_eq!(seen, vec![0, 1, 2, 3, 4]);
    dfs.reset(&aeg);
    dfs.move_to(5);
    assert_eq!(dfs.next(&aeg), Some(5));
    assert_eq!(dfs.next(&aeg), None);
}

const IFS: &str = r#"
        let x: u32 = 0;
        let y: u32 = 0;
        let z: u32 = 0;
        thread t1 {
            let a: u32 = 0;
            x = 42;
            if (1 == 1) {
                y = 1;
            } else {
                a = z;
            }
            y = 1;
        }
        thread t2 {
            let b: u32 = y;
            let c: u32 = z;
            let d: u32 = x;
        }
        final {}
        "#;

#[test]
fn critical_cycles_ifs() {
    let ccs = critical_cycles(&aeg_of(IFS, Architecture::Power));
    assert_eq!(ccs.len(), 4);
    assert_eq!(ccs.iter().map(|cc| cc.potential_fences.len()).collect::<Vec<_>>(), vec![3, 4, 4, 3]);
}

#[test]
fn skip_branches_takes_one_path_per_delay() {
    let aeg = AbstractEventGraph::with_config(
        &parse(IFS).unwrap(),
        AegConfig { architecture: Architecture::Power, skip_branches: true },
    )
    .unwrap();
    let ccs = critical_cycles(&aeg);
    assert_eq!(ccs.len(), 2);
}

#[test]
fn nested_ifs() {
    let program = r#"
        let x: u32 = 0;
        let y: u32 = 0;
        let z: u32 = 0;
        thread t1 {
            let a: u32 = 0;
            x = 42;
            if (1 == 1) {
                if (1 == 1 ) {
                    z = 1;
                } else {
                    z = 2;
                }
            } else {
                if (1 == 1) {
                    z = 3;
                } else {
                    z = 4;
                }
            }
            y = 1;
        }
        thread t2 {
            let b: u32 = y;
            let d: u32 = x;
        }
        final {}
        "#;
    let ccs = critical_cycles(&aeg_of(program, Architecture::Power));
    assert_eq!(ccs.len(), 5);
    let cycle = ccs[0].cycle.clone();
    assert!(ccs.into_iter().map(|cc| cc.cycle).all(|c| c == cycle));
}

#[test]
fn cc_through_nested_ifs() {
    let program = r#"
        let x: u32 = 0;
        let y: u32 = 0;
        let z: u32 = 0;
        thread t1 {
            let a: u32 = 0;
            if (1 == 1) {
                x = 42;
                if (1 == 1 ) {
                    z = 1;
                } else {
                    z = 2;
                }
            } else {
                if (1 == 1) {
                    z = 3;
                } else {
                    z = 4;
                }
            }
            y = 1;
        }
        thread t2 {
            let b: u32 = y;
            let d: u32 = x;
        }
        final {}
        "#;
    let ccs = critical_cycles(&aeg_of(program, Architecture::Power));
    assert_eq!(ccs.len(), 3);
}

#[test]
fn cc_through_middle_of_while() {
    let program = r#"
        let x: u32 = 0;
        let y: u32 = 0;
        let z: u32 = 0;
        thread t1 {
            while (x == 0) {
                y = 1;
                x = 1;
            }
            z = 1;
        }
        thread t2 {
            let a: u32 = z;
            let b: u32 = y;
        }
        final {}
        "#;
    let ccs = critical_cycles(&aeg_of(program, Architecture::Power));
    assert_eq!(ccs.len(), 1);
    assert_eq!(ccs[0].cycle, vec![1, 4, 5, 6]);
    assert_eq!(ccs[0].potential_fences, vec![1, 2, 5, 6]);
}

#[test]
fn cc_over_a_while() {
    let program = r#"
        let x: u32 = 0;
        let y: u32 = 0;
        let z: u32 = 0;
        thread t1 {
            y = 1;
            while (x == 0) {
                x = 1;
            }
            z = 1;
        }
        thread t2 {
            let a: u32 = z;
            let b: u32 = y;
        }
        final {}
        "#;
    let ccs = critical_cycles(&aeg_of(program, Architecture::Power));
    assert_eq!(ccs.len(), 2);
    assert_eq!(ccs[0].cycle, vec![0, 4, 5, 6]);
    assert_eq!(
        ccs.iter().map(|cc| cc.potential_fences.clone()).collect::<Vec<_>>(),
        vec![vec![0, 4, 6], vec![0, 1, 2, 5, 6]]
    );
}

#[test]
fn fenced_program() {
    let program = r#"
        let x: u32 = 0;
        let y: u32 = 0;
        thread t1 {
            x = 1;
            Fence(WR);
            let a: u32 = y;
        }
        thread t2 {
            y = 1;
            let b: u32 = x;
        }
        final {}"#;
    let ccs = critical_cycles(&aeg_of(program, Architecture::Power));
    assert_eq!(ccs.len(), 1);
}

#[test]
fn simple_paths_ifs() {
    let program = r#"
        let x: u32 = 0;
        let y: u32 = 0;
        let z: u32 = 0;
        thread t1 {
            let a: u32 = 0;
            x = 42;
            if (1 == 1) {
                y = 1;
            } else {
                a = z;
            }
            x = 1;
        }
        final {}
        "#;
    let aeg = AbstractEventGraph::new(&parse(program).unwrap()).unwrap();
    let last = aeg.graph.node_count() - 1;
    let paths = all_simple_po_paths(&aeg, 0, last, 0, None);
    assert_eq!(paths.len(), 3);
}
