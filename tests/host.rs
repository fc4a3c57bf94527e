use module_host::error::{exit_code, HostError};
use module_host::evaluate::{instantiate, Evaluation, Outcome};
use module_host::event_loop::{EventLoop, LoopAction, LoopState};
use module_host::graph::{ImportRequest, ModuleGraph, ModuleState, ParsedModule, ENTRY};
use module_host::link::{instantiation_order, link};
use module_host::specifier::{resolve, ModuleSpecifier};

fn spec(s: &str) -> ModuleSpecifier {
    ModuleSpecifier { href: s.to_string() }
}

fn import(raw: &str, names: &[&str]) -> ImportRequest {
    ImportRequest { raw: raw.to_string(), names: names.iter().map(|n| n.to_string()).collect() }
}

fn parsed(imports: Vec<ImportRequest>, exports: &[&str]) -> ParsedModule {
    ParsedModule { imports, exports: exports.iter().map(|e| e.to_string()).collect() }
}

fn href_of(g: &ModuleGraph, i: usize) -> String {
    g.records[i].specifier.href.clone()
}

#[test]
fn resolve_joins_relative_reference() {
    let base = spec("file:///app/main.js");
    let r = resolve(Some(&base), "./lib/util.js").unwrap();
    assert_eq!(r.href, "file:///app/lib/util.js");
    let up = resolve(Some(&base), "../shared/x.js").unwrap();
    assert_eq!(up.href, "file:///shared/x.js");
}

#[test]
fn resolve_absolute_ignores_base() {
    let base = spec("file:///app/main.js");
    let r = resolve(Some(&base), "https://example.com/a/b.js").unwrap();
    assert_eq!(r.href, "https://example.com/a/b.js");
    let alone = resolve(None, "file:///x/y.js").unwrap();
    assert_eq!(alone.href, "file:///x/y.js");
}

#[test]
fn resolve_is_deterministic() {
    let base = spec("file:///app/main.js");
    for raw in ["./a.js", "../b.js", "/c.js", "https://h/d.js"] {
        assert_eq!(resolve(Some(&base), raw), resolve(Some(&base), raw));
    }
}

#[test]
fn resolve_canonicalises_spellings() {
    let base = spec("file:///app/main.js");
    let a = resolve(Some(&base), "./util.js").unwrap();
    let b = resolve(Some(&base), "./sub/../util.js").unwrap();
    assert_eq!(a, b);
    assert!(a.same_module(&b));
}

#[test]
fn resolve_rejects_malformed_reference() {
    let base = spec("file:///app/main.js");
    assert_eq!(
        resolve(Some(&base), "http://[bad"),
        Err(HostError::InvalidSpecifier { raw: "http://[bad".to_string() })
    );
    assert_eq!(
        resolve(None, "./relative.js"),
        Err(HostError::InvalidSpecifier { raw: "./relative.js".to_string() })
    );
}

#[test]
fn graph_deduplicates_loads() {
    let mut g = ModuleGraph::new(spec("file:///app/main.js"));
    assert_eq!(g.next_fetch(), Some(ENTRY));
    let p = parsed(vec![import("./util.js", &[]), import("./x/../util.js", &[]), import("./main.js", &[])], &[]);
    g.complete_fetch("import './util.js';".to_string(), p).unwrap();
    assert_eq!(g.records.len(), 2);
    assert_eq!(g.records[0].targets, vec![1, 1, 0]);
    assert_eq!(g.records[0].state, ModuleState::Fetched);
    assert_eq!(g.records[1].state, ModuleState::Fetching);
    assert_eq!(href_of(&g, 1), "file:///app/util.js");
    assert_eq!(g.next_fetch(), Some(1));
    g.complete_fetch(String::new(), parsed(vec![], &[])).unwrap();
    assert_eq!(g.next_fetch(), None);
    assert_eq!(g.index_of(&spec("file:///app/util.js")), Some(1));
    assert_eq!(g.index_of(&spec("file:///app/none.js")), None);
}

#[test]
fn cycle_builds_links_and_evaluates_once() {
    let mut g = ModuleGraph::new(spec("file:///app/a.js"));
    g.complete_fetch(String::new(), parsed(vec![import("./b.js", &["fromB"])], &["fromA"])).unwrap();
    g.complete_fetch(String::new(), parsed(vec![import("./a.js", &["fromA"])], &["fromB"])).unwrap();
    assert_eq!(g.next_fetch(), None);
    assert_eq!(g.records.len(), 2);
    let order = instantiation_order(&g);
    assert_eq!(order, vec![1, 0]);
    assert_eq!(link(&g, &order), Ok(()));
    let mut e = Evaluation::new(&g, order);
    let mut runs = Vec::new();
    while let Some(m) = e.next_module(&g) {
        runs.push(m);
        e.report(&g, Ok(()));
    }
    assert_eq!(runs, vec![1, 0]);
    assert_eq!(e.entry_result(&g), Some(Ok(())));
}

#[test]
fn diamond_order_lists_shared_dependency_once() {
    let mut g = ModuleGraph::new(spec("file:///d/main.js"));
    g.complete_fetch(String::new(), parsed(vec![import("./l.js", &[]), import("./r.js", &[])], &[])).unwrap();
    g.complete_fetch(String::new(), parsed(vec![import("./base.js", &[])], &[])).unwrap();
    g.complete_fetch(String::new(), parsed(vec![import("./base.js", &[])], &[])).unwrap();
    g.complete_fetch(String::new(), parsed(vec![], &[])).unwrap();
    assert_eq!(g.records.len(), 4);
    assert_eq!(instantiation_order(&g), vec![3, 1, 2, 0]);
}

#[test]
fn missing_dependency_is_graph_error() {
    let mut g = ModuleGraph::new(spec("file:///app/main.js"));
    g.complete_fetch(String::new(), parsed(vec![import("./missing.js", &[])], &[])).unwrap();
    assert_eq!(g.next_fetch(), Some(1));
    let err = g.fail_fetch("not found".to_string());
    assert_eq!(
        err,
        HostError::GraphError { specifier: "file:///app/missing.js".to_string(), cause: "not found".to_string() }
    );
    assert!(g.fetched < g.records.len());
    assert_eq!(exit_code::<()>(&Err(err)), 1);
}

#[test]
fn invalid_import_fails_graph_construction() {
    let mut g = ModuleGraph::new(spec("file:///app/main.js"));
    let r = g.complete_fetch(String::new(), parsed(vec![import("./ok.js", &[]), import("http://[x", &[])], &[]));
    assert_eq!(r, Err(HostError::InvalidSpecifier { raw: "http://[x".to_string() }));
}

#[test]
fn missing_export_is_link_error() {
    let mut g = ModuleGraph::new(spec("file:///app/main.js"));
    g.complete_fetch(String::new(), parsed(vec![import("./util.js", &["value", "other"])], &[])).unwrap();
    g.complete_fetch(String::new(), parsed(vec![], &["value"])).unwrap();
    let order = instantiation_order(&g);
    assert_eq!(
        link(&g, &order),
        Err(HostError::LinkError { specifier: "file:///app/main.js".to_string(), missing_export: "other".to_string() })
    );
}

#[test]
fn throwing_module_fails_dependents_not_siblings() {
    let mut g = ModuleGraph::new(spec("file:///app/main.js"));
    g.complete_fetch(String::new(), parsed(vec![import("./ok.js", &[]), import("./bad.js", &[])], &[])).unwrap();
    g.complete_fetch(String::new(), parsed(vec![], &[])).unwrap();
    g.complete_fetch(String::new(), parsed(vec![], &[])).unwrap();
    let order = instantiation_order(&g);
    assert_eq!(order, vec![1, 2, 0]);
    let mut e = Evaluation::new(&g, order);
    assert_eq!(e.next_module(&g), Some(1));
    e.report(&g, Ok(()));
    assert_eq!(e.next_module(&g), Some(2));
    e.report(&g, Err("boom".to_string()));
    assert_eq!(e.next_module(&g), None);
    assert_eq!(e.outcomes[1], Outcome::Evaluated);
    assert_eq!(e.outcomes[2], Outcome::Failed { origin: 2, cause: "boom".to_string() });
    assert_eq!(e.outcomes[0], Outcome::Failed { origin: 2, cause: "boom".to_string() });
    assert_eq!(
        e.entry_result(&g),
        Some(Err(HostError::EvaluationError { specifier: "file:///app/bad.js".to_string(), cause: "boom".to_string() }))
    );
}

#[test]
fn microtasks_run_before_next_macrotask() {
    let mut l = EventLoop::new();
    l.enqueue_macrotask(100);
    l.enqueue_microtask(1);
    l.enqueue_microtask(2);
    l.settle(Ok("done".to_string()));
    let mut seen = Vec::new();
    loop {
        match l.step() {
            LoopAction::RunMicrotask(t) | LoopAction::RunMacrotask(t) => seen.push(t),
            LoopAction::WaitForEvent => panic!("nothing is outstanding"),
            LoopAction::Finished => break,
        }
    }
    assert_eq!(seen, vec![1, 2, 100]);
    assert_eq!(l.completion, Some(Ok("done".to_string())));
    assert_eq!(l.state, LoopState::Terminated);
}

#[test]
fn microtask_enqueued_while_draining_runs_first() {
    let mut l = EventLoop::new();
    l.enqueue_macrotask(7);
    l.enqueue_microtask(1);
    assert_eq!(l.step(), LoopAction::RunMicrotask(1));
    l.enqueue_microtask(2);
    assert_eq!(l.step(), LoopAction::RunMicrotask(2));
    assert_eq!(l.step(), LoopAction::RunMacrotask(7));
}

#[test]
fn end_to_end_main_imports_util() {
    let mut g = ModuleGraph::new(spec("file:///app/main.js"));
    while let Some(i) = g.next_fetch() {
        let p = if i == ENTRY {
            parsed(vec![import("./util.js", &["value"])], &[])
        } else {
            parsed(vec![], &["value"])
        };
        g.complete_fetch(String::new(), p).unwrap();
    }
    let order = instantiation_order(&g);
    assert_eq!(link(&g, &order), Ok(()));
    let mut e = Evaluation::new(&g, order);
    while e.next_module(&g).is_some() {
        e.report(&g, Ok(()));
    }
    assert_eq!(e.entry_result(&g), Some(Ok(())));
    let mut l = EventLoop::new();
    l.settle(Ok("42".to_string()));
    assert_eq!(l.step(), LoopAction::Finished);
    let result = l.completion.clone().unwrap();
    assert_eq!(result, Ok("42".to_string()));
    assert_eq!(exit_code(&result), 0);
}

#[test]
fn unresolved_promise_stalls() {
    let mut l = EventLoop::new();
    assert_eq!(l.step(), LoopAction::Finished);
    assert_eq!(l.completion, Some(Err(HostError::EventLoopStalled)));
    assert_eq!(l.step(), LoopAction::Finished);
}

#[test]
fn outstanding_macrotask_waits_then_runs() {
    let mut l = EventLoop::new();
    l.schedule_external();
    assert_eq!(l.step(), LoopAction::WaitForEvent);
    assert_eq!(l.state, LoopState::AwaitingMacrotask);
    l.external_ready(9);
    assert_eq!(l.step(), LoopAction::RunMacrotask(9));
    l.settle(Ok("v".to_string()));
    assert_eq!(l.step(), LoopAction::Finished);
    assert_eq!(l.completion, Some(Ok("v".to_string())));
}

#[test]
fn settlement_happens_once() {
    let mut l = EventLoop::new();
    l.settle(Ok("first".to_string()));
    l.settle(Err(HostError::Cancelled));
    assert_eq!(l.completion, Some(Ok("first".to_string())));
}

#[test]
fn cancel_fails_unsettled_run() {
    let mut l = EventLoop::new();
    l.enqueue_microtask(1);
    l.schedule_external();
    l.cancel();
    assert_eq!(l.completion, Some(Err(HostError::Cancelled)));
    assert_eq!(l.step(), LoopAction::Finished);
}

#[test]
fn instantiate_links_before_evaluating() {
    let mut g = ModuleGraph::new(spec("file:///app/main.js"));
    g.complete_fetch(String::new(), parsed(vec![import("./util.js", &["value"])], &[])).unwrap();
    g.complete_fetch(String::new(), parsed(vec![], &["value"])).unwrap();
    let mut e = instantiate(&g).unwrap();
    assert_eq!(e.order, vec![1, 0]);
    assert!(e.outcomes.iter().all(|o| *o == Outcome::Pending));
    assert_eq!(e.next_module(&g), Some(1));
}

#[test]
fn instantiate_refuses_unlinkable_graph() {
    let mut g = ModuleGraph::new(spec("file:///app/main.js"));
    g.complete_fetch(String::new(), parsed(vec![import("./util.js", &["nope"])], &[])).unwrap();
    g.complete_fetch(String::new(), parsed(vec![], &["value"])).unwrap();
    assert!(matches!(instantiate(&g), Err(HostError::LinkError { .. })));
}

#[test]
fn unhandled_rejection_fails_settled_run() {
    let mut l = EventLoop::new();
    l.settle(Ok("ok".to_string()));
    l.reject_unhandled("file:///app/main.js".to_string(), "oops".to_string());
    assert_eq!(
        l.completion,
        Some(Err(HostError::EvaluationError { specifier: "file:///app/main.js".to_string(), cause: "oops".to_string() }))
    );
    l.reject_unhandled("file:///app/other.js".to_string(), "later".to_string());
    assert_eq!(
        l.completion,
        Some(Err(HostError::EvaluationError { specifier: "file:///app/main.js".to_string(), cause: "oops".to_string() }))
    );
}

#[test]
fn failed_settlement_ends_run_at_once() {
    let mut l = EventLoop::new();
    l.enqueue_microtask(1);
    l.enqueue_macrotask(2);
    l.schedule_external();
    l.settle(Err(HostError::Cancelled));
    assert_eq!(l.step(), LoopAction::Finished);
    assert_eq!(l.state, LoopState::Terminated);
    assert_eq!(l.completion, Some(Err(HostError::Cancelled)));
}

#[test]
fn dynamic_import_adds_or_reuses_record() {
    let mut g = ModuleGraph::new(spec("file:///app/main.js"));
    g.complete_fetch(String::new(), parsed(vec![import("./util.js", &[])], &[])).unwrap();
    g.complete_fetch(String::new(), parsed(vec![], &[])).unwrap();
    assert_eq!(g.next_fetch(), None);
    assert_eq!(g.add_dynamic_import(1, "./util.js"), Ok(1));
    assert_eq!(g.records.len(), 2);
    assert_eq!(g.add_dynamic_import(0, "./lazy.js"), Ok(2));
    assert_eq!(href_of(&g, 2), "file:///app/lazy.js");
    assert_eq!(g.records[2].state, ModuleState::Fetching);
    assert_eq!(g.next_fetch(), Some(2));
    assert_eq!(g.add_dynamic_import(0, "http://[x"), Err(HostError::InvalidSpecifier { raw: "http://[x".to_string() }));
}

#[test]
fn cycle_runs_both_bodies_in_order() {
    let mut g = ModuleGraph::new(spec("file:///w/a.js"));
    g.complete_fetch(String::new(), parsed(vec![import("./b.js", &["b"])], &["a"])).unwrap();
    g.complete_fetch(String::new(), parsed(vec![import("./a.js", &["a"])], &["b"])).unwrap();
    let mut e = instantiate(&g).unwrap();
    let mut trace = Vec::new();
    while let Some(m) = e.next_module(&g) {
        trace.push(if m == 0 { "A" } else { "B" });
        e.report(&g, Ok(()));
    }
    assert_eq!(trace, vec!["B", "A"]);
    assert_eq!(e.entry_result(&g), Some(Ok(())));
}
