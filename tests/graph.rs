use std::sync::Arc;

use adroit::driver::{next_step, Step};
use adroit::graph::{Analysis, Data, Graph, Stage, Unresolved};
use adroit::resolve::{parent, resolve_import};

const STD: &str = "file:///std/";
const ROOT: &str = "file:///work/r.adroit";
const A: &str = "file:///work/a.adroit";
const B: &str = "file:///work/b.adroit";

/// A stand-in type checker: the module is its identity plus the modules it
/// saw, and a module whose text holds `bad` has one type error.
fn check(job: &Analysis<String>) -> (Arc<String>, Vec<String>) {
    let mut module = job.uri.clone();
    for (uri, dep) in &job.deps {
        assert!(dep.starts_with(uri.as_str()));
        module.push('|');
        module.push_str(dep);
    }
    let errs = if job.syn.src.contains("bad") { vec!["type error".to_string()] } else { vec![] };
    (Arc::new(module), errs)
}

/// Drives the graph to its fixpoint, fetching from `texts`; returns the
/// number of texts supplied and of jobs checked.
fn drain(graph: &mut Graph<String, String>, texts: &[(&str, &str)], reverse: bool) -> (usize, usize) {
    let mut fetched = 0;
    let mut checked = 0;
    loop {
        match next_step(graph) {
            Step::Fetch(mut uris) => {
                if reverse {
                    uris.reverse();
                }
                for uri in uris {
                    let text = texts.iter().find(|(u, _)| *u == uri).map(|(_, t)| *t).unwrap_or("");
                    graph.set_text(&uri, text.to_string());
                    fetched += 1;
                }
            }
            Step::Check(mut jobs) => {
                if reverse {
                    jobs.reverse();
                }
                for job in jobs {
                    let (sem, errs) = check(&job);
                    graph.supply_semantic(job, sem, errs);
                    checked += 1;
                }
            }
            Step::Done => return (fetched, checked),
        }
    }
}

fn stage(graph: &Graph<String, String>, uri: &str) -> Stage {
    graph.get(&uri.to_string()).unwrap().stage()
}

fn semantic(graph: &Graph<String, String>, uri: &str) -> (String, usize) {
    match &graph.get(&uri.to_string()).unwrap().data {
        Data::Analyzed { sem, errs, .. } => (sem.as_ref().clone(), errs.len()),
        _ => panic!("{} is not analyzed", uri),
    }
}

#[test]
fn root_and_import_analyzed_in_either_order() {
    let texts = [(ROOT, "import .a;\nfunc main(): Int { 1 }"), (A, "func one(): Int { 1 }")];
    for reverse in [false, true] {
        let mut graph: Graph<String, String> = Graph::new(STD.to_string());
        graph.make_root(ROOT.to_string());
        drain(&mut graph, &texts, reverse);
        assert_eq!(stage(&graph, ROOT), Stage::Analyzed);
        assert_eq!(stage(&graph, A), Stage::Analyzed);
        assert_eq!(graph.imports(&ROOT.to_string()).unwrap(), vec![A.to_string()]);
        assert_eq!(semantic(&graph, ROOT).0, format!("{}|{}", ROOT, A));
    }
}

#[test]
fn texts_supplied_in_either_order_give_the_same_result() {
    let r_text = "import .a;\nfunc main(): Int { 1 }";
    let a_text = "func one(): Int { 1 }";
    let mut first: Graph<String, String> = Graph::new(STD.to_string());
    first.make_root(ROOT.to_string());
    first.set_text(&ROOT.to_string(), r_text.to_string());
    first.set_text(&A.to_string(), a_text.to_string());
    drain(&mut first, &[], false);
    let mut second: Graph<String, String> = Graph::new(STD.to_string());
    second.make_root(A.to_string());
    second.set_text(&A.to_string(), a_text.to_string());
    second.make_root(ROOT.to_string());
    second.set_text(&ROOT.to_string(), r_text.to_string());
    drain(&mut second, &[], false);
    assert_eq!(semantic(&first, ROOT), semantic(&second, ROOT));
    assert_eq!(semantic(&first, A), semantic(&second, A));
}

#[test]
fn root_with_one_type_error_still_analyzes_its_imports() {
    let texts = [
        (ROOT, "import .a;\nimport .b;\nfunc bad(): Int { 1 }"),
        (A, "func one(): Int { 1 }"),
        (B, "func two(): Int { 2 }"),
    ];
    let mut graph: Graph<String, String> = Graph::new(STD.to_string());
    graph.make_root(ROOT.to_string());
    drain(&mut graph, &texts, false);
    assert_eq!(semantic(&graph, A).1, 0);
    assert_eq!(semantic(&graph, B).1, 0);
    assert_eq!(semantic(&graph, ROOT).1, 1);
    let any_errors = (0..graph.len()).any(|i| matches!(&graph.node_at(i).data, Data::Analyzed { errs, .. } if !errs.is_empty()));
    assert!(any_errors);
    assert_eq!(graph.imports(&ROOT.to_string()).unwrap(), vec![A.to_string(), B.to_string()]);
}

#[test]
fn mutual_imports_stay_parsed() {
    let texts = [(ROOT, "import .a;"), (A, "import .r;")];
    let mut graph: Graph<String, String> = Graph::new(STD.to_string());
    graph.make_root(ROOT.to_string());
    let (fetched, checked) = drain(&mut graph, &texts, false);
    assert_eq!(fetched, 2);
    assert_eq!(checked, 0);
    assert_eq!(stage(&graph, ROOT), Stage::Parsed);
    assert_eq!(stage(&graph, A), Stage::Parsed);
    assert_eq!(graph.imports(&ROOT.to_string()), Ok(vec![A.to_string()]));
    assert!(graph.pending().is_empty());
    assert!(graph.analysis().is_empty());
}

#[test]
fn shared_import_is_fetched_and_checked_once() {
    let texts = [
        (ROOT, "import .a;\nimport .b;"),
        (A, "import m;"),
        (B, "import m;"),
        ("file:///std/m.adroit", "func pi(): Float { 3.14 }"),
    ];
    let mut graph: Graph<String, String> = Graph::new(STD.to_string());
    graph.make_root(ROOT.to_string());
    let (fetched, checked) = drain(&mut graph, &texts, false);
    assert_eq!(graph.len(), 4);
    assert_eq!(fetched, 4);
    assert_eq!(checked, 4);
    assert_eq!(stage(&graph, "file:///std/m.adroit"), Stage::Analyzed);
}

#[test]
fn pending_and_analysis_are_repeatable() {
    let mut graph: Graph<String, String> = Graph::new(STD.to_string());
    graph.make_root(ROOT.to_string());
    graph.set_text(&ROOT.to_string(), "import .a;\nimport .b;".to_string());
    assert_eq!(graph.pending(), graph.pending());
    assert_eq!(graph.pending(), vec![A.to_string(), B.to_string()]);
    graph.set_text(&A.to_string(), String::new());
    graph.set_text(&B.to_string(), String::new());
    let first: Vec<String> = graph.analysis().into_iter().map(|j| j.uri).collect();
    let second: Vec<String> = graph.analysis().into_iter().map(|j| j.uri).collect();
    assert_eq!(first, second);
    assert_eq!(first, vec![A.to_string(), B.to_string()]);
}

#[test]
fn supplied_identity_leaves_pending_for_good() {
    let mut graph: Graph<String, String> = Graph::new(STD.to_string());
    graph.make_root(ROOT.to_string());
    assert_eq!(graph.pending(), vec![ROOT.to_string()]);
    graph.set_text(&ROOT.to_string(), "$".to_string());
    assert!(graph.pending().is_empty());
    graph.make_root(ROOT.to_string());
    graph.set_text(&ROOT.to_string(), "func".to_string());
    assert!(graph.pending().is_empty());
}

#[test]
fn lex_and_parse_failures_are_kept_in_the_node() {
    let mut graph: Graph<String, String> = Graph::new(STD.to_string());
    graph.set_text(&A.to_string(), "a $".to_string());
    assert_eq!(stage(&graph, A), Stage::Read);
    graph.set_text(&B.to_string(), "func".to_string());
    assert_eq!(stage(&graph, B), Stage::Lexed);
    match &graph.get(&B.to_string()).unwrap().data {
        Data::Lexed { err, .. } => assert_eq!(err.message(), "expected identifier"),
        _ => panic!("not lexed"),
    }
    assert_eq!(graph.imports(&A.to_string()), Err(Unresolved));
}

#[test]
fn new_text_sends_importers_back_to_parsed() {
    let texts = [(ROOT, "import .a;"), (A, "import .b;"), (B, "")];
    let mut graph: Graph<String, String> = Graph::new(STD.to_string());
    graph.make_root(ROOT.to_string());
    drain(&mut graph, &texts, false);
    assert_eq!(stage(&graph, ROOT), Stage::Analyzed);
    graph.set_text(&B.to_string(), "func two(): Int { 2 }".to_string());
    assert_eq!(stage(&graph, B), Stage::Parsed);
    assert_eq!(stage(&graph, A), Stage::Parsed);
    assert_eq!(stage(&graph, ROOT), Stage::Parsed);
    let jobs: Vec<String> = graph.analysis().into_iter().map(|j| j.uri).collect();
    assert_eq!(jobs, vec![B.to_string()]);
    let (_, checked) = drain(&mut graph, &texts, false);
    assert_eq!(checked, 3);
    assert_eq!(stage(&graph, ROOT), Stage::Analyzed);
}

#[test]
fn new_text_keeps_unrelated_modules_analyzed() {
    let texts = [(ROOT, "import .a;\nimport .b;"), (A, ""), (B, "")];
    let mut graph: Graph<String, String> = Graph::new(STD.to_string());
    graph.make_root(ROOT.to_string());
    drain(&mut graph, &texts, false);
    graph.set_text(&A.to_string(), "func one(): Int { 1 }".to_string());
    assert_eq!(stage(&graph, B), Stage::Analyzed);
    assert_eq!(stage(&graph, ROOT), Stage::Parsed);
}

#[test]
fn driver_steps() {
    let mut graph: Graph<String, String> = Graph::new(STD.to_string());
    assert!(matches!(next_step(&graph), Step::Done));
    graph.make_root(ROOT.to_string());
    match next_step(&graph) {
        Step::Fetch(uris) => assert_eq!(uris, vec![ROOT.to_string()]),
        _ => panic!("expected a fetch"),
    }
    graph.set_text(&ROOT.to_string(), String::new());
    match next_step(&graph) {
        Step::Check(jobs) => {
            assert_eq!(jobs.len(), 1);
            assert_eq!(jobs[0].uri, ROOT);
            assert!(jobs[0].deps.is_empty());
        }
        _ => panic!("expected a check"),
    }
}

#[test]
fn imports_resolve_beside_the_module_or_in_the_library() {
    assert_eq!(resolve_import(STD, ROOT, true, "a"), A);
    assert_eq!(resolve_import(STD, ROOT, false, "m"), "file:///std/m.adroit");
    assert_eq!(parent(ROOT), "file:///work/");
    assert_eq!(parent("plain"), "");
    let mut graph: Graph<String, String> = Graph::new(STD.to_string());
    graph.set_text(&ROOT.to_string(), "import m;\nimport .a;".to_string());
    assert_eq!(graph.pending(), vec!["file:///std/m.adroit".to_string(), A.to_string()]);
    assert_eq!(graph.stdlib(), STD);
}

#[test]
fn fetch_failure_is_recorded_and_draining_ends() {
    let mut graph: Graph<String, String> = Graph::new(STD.to_string());
    graph.make_root(ROOT.to_string());
    graph.set_text(&ROOT.to_string(), "import .a;".to_string());
    graph.set_fetch_error(&A.to_string(), "not found".to_string());
    assert_eq!(stage(&graph, A), Stage::Missing);
    assert!(graph.pending().is_empty());
    assert!(matches!(next_step(&graph), Step::Done));
    assert_eq!(stage(&graph, ROOT), Stage::Parsed);
}

#[test]
fn library_root_without_trailing_slash() {
    assert_eq!(resolve_import("file:///std", ROOT, false, "m"), "file:///std/m.adroit");
}

#[test]
fn cycle_is_reported() {
    let texts = [(ROOT, "import .a;"), (A, "import .b;"), (B, "import .a;")];
    let mut graph: Graph<String, String> = Graph::new(STD.to_string());
    graph.make_root(ROOT.to_string());
    drain(&mut graph, &texts, false);
    assert!(graph.in_cycle(&A.to_string()));
    assert!(graph.in_cycle(&B.to_string()));
    assert!(!graph.in_cycle(&ROOT.to_string()));
    assert_eq!(stage(&graph, A), Stage::Parsed);
    assert_eq!(stage(&graph, ROOT), Stage::Parsed);
}

#[test]
fn acyclic_graph_has_no_cycle() {
    let texts = [(ROOT, "import .a;"), (A, "")];
    let mut graph: Graph<String, String> = Graph::new(STD.to_string());
    graph.make_root(ROOT.to_string());
    drain(&mut graph, &texts, false);
    assert!(!graph.in_cycle(&ROOT.to_string()));
    assert!(!graph.in_cycle(&A.to_string()));
    assert!(!graph.in_cycle(&"file:///elsewhere.adroit".to_string()));
}
