use auraed::cell::{Cell, Cells, ClientConfig, Launch, NestedAuraed, Phase};
use auraed::error::ErrorKind;
use auraed::name::CellName;
use auraed::spec::{CellSpec, CgroupSpec, IsolationControls};
use auraed::teardown::{Action, Teardown};

fn spec() -> CellSpec {
    CellSpec { cgroup_spec: CgroupSpec::inherit(), iso_ctl: IsolationControls::shared() }
}

fn spec_with_weight(w: u64) -> CellSpec {
    let mut s = spec();
    s.cgroup_spec.cpu_weight = Some(w);
    s
}

fn name(text: &str) -> CellName {
    CellName::parse(text).expect("valid name")
}

fn daemon(pid: i32) -> NestedAuraed {
    NestedAuraed {
        pid,
        client_config: ClientConfig {
            socket: format!("/run/aurae/{pid}.sock"),
            ca_crt: "/etc/aurae/pki/ca.crt".to_string(),
            client_crt: "/etc/aurae/pki/client.crt".to_string(),
            client_key: "/etc/aurae/pki/client.key".to_string(),
        },
    }
}

fn attached(pid: i32) -> Launch {
    Launch::Attached { daemon: daemon(pid) }
}

fn add_cell(cells: &mut Cells, text: &str, pid: i32) {
    cells.allocate(name(text), spec(), attached(pid)).expect("allocate");
}

/// Runs a teardown to its end; `fail` picks the (pid or cgroup) steps that
/// fail. Returns the actions performed, as text.
fn run(mut t: Teardown, fail: &dyn Fn(&Action) -> bool) -> (Vec<String>, Result<(), auraed::error::CellsError>) {
    let mut log = Vec::new();
    loop {
        let a = t.next_action();
        let entry = match &a {
            Action::Finished => break,
            Action::Stop { pid, graceful } => format!("stop {pid} {graceful}"),
            Action::RemoveCgroup { cell_name } => format!("rmdir {}", cell_name.to_path()),
        };
        let outcome = if fail(&a) { Err(format!("failed: {entry}")) } else { Ok(()) };
        log.push(entry);
        t.report(outcome);
    }
    (log, t.into_result())
}

fn never(_: &Action) -> bool {
    false
}

#[test]
fn test_cant_unfree() {
    let mut cell = Cell::new(name("svc"), spec());
    assert_eq!(cell.phase(), Phase::Unallocated);

    cell.allocate(attached(41)).expect("failed to allocate");
    assert_eq!(cell.phase(), Phase::Allocated);

    let (log, result) = run(cell.free(), &never);
    result.expect("failed to free");
    assert_eq!(log, vec!["stop 41 true".to_string(), "rmdir svc".to_string()]);
    assert_eq!(cell.phase(), Phase::Freed);

    cell.allocate(attached(42)).expect("failed to allocate 2");
    assert_eq!(cell.phase(), Phase::Freed);
}

#[test]
fn cell_allocate_records_daemon() {
    let mut cell = Cell::new(name("svc"), spec_with_weight(100));
    cell.allocate(attached(7)).unwrap();
    assert_eq!(cell.pid(), Some(7));
    assert_eq!(cell.v2(), Some(true));
    let config = cell.client_config().unwrap();
    assert_eq!(config.socket, "/run/aurae/7.sock");
    assert_eq!(config.ca_crt, "/etc/aurae/pki/ca.crt");
    assert_eq!(config.client_key, "/etc/aurae/pki/client.key");
    assert_eq!(cell.spec().cgroup_spec.cpu_weight, Some(100));
}

#[test]
fn unallocated_cell_has_no_client() {
    let cell = Cell::new(name("svc"), spec());
    assert_eq!(cell.v2(), None);
    assert_eq!(cell.pid(), None);
    assert_eq!(cell.client_config().unwrap_err().kind(), ErrorKind::CellNotAllocated);
}

#[test]
fn cell_spawn_failure_stays_unallocated() {
    let mut cell = Cell::new(name("svc"), spec());
    let e = cell.allocate(Launch::SpawnFailed { reason: "no binary".to_string() }).unwrap_err();
    assert_eq!(e.kind(), ErrorKind::FailedToAllocateCell);
    assert_eq!(cell.phase(), Phase::Unallocated);
}

#[test]
fn single_cell_lifecycle() {
    let mut cells = Cells::new();
    cells.allocate(name("svc"), spec_with_weight(100), attached(100)).unwrap();
    let c = cells.get(&name("svc")).unwrap();
    assert_eq!(c.pid(), Some(100));
    assert_eq!(c.spec().cgroup_spec.cpu_weight, Some(100));
    let g = cells.cell_graph();
    assert_eq!(g[0].spec.cgroup_spec.cpu_weight, Some(100));
    let t = cells.free(&name("svc")).unwrap();
    let (log, r) = run(t, &never);
    assert!(r.is_ok());
    assert_eq!(log, vec!["stop 100 true".to_string(), "rmdir svc".to_string()]);
    assert_eq!(cells.len(), 0);
    assert_eq!(cells.get(&name("svc")).unwrap_err().kind(), ErrorKind::CellNotFound);
}

#[test]
fn nested_tree_free_drains_bottom_up() {
    let mut cells = Cells::new();
    add_cell(&mut cells, "a", 1);
    add_cell(&mut cells, "a/b", 2);
    add_cell(&mut cells, "a/b/c", 3);
    let g = cells.cell_graph();
    assert_eq!(g.len(), 1);
    assert_eq!(g[0].cell_name.to_path(), "a");
    assert_eq!(g[0].children.len(), 1);
    assert_eq!(g[0].children[0].cell_name.to_path(), "a/b");
    assert_eq!(g[0].children[0].children.len(), 1);
    assert_eq!(g[0].children[0].children[0].cell_name.to_path(), "a/b/c");
    assert_eq!(g[0].children[0].children[0].children.len(), 0);
    assert!(g[0].spec.cgroup_spec.cpu_weight.is_none());

    let t = cells.free(&name("a")).unwrap();
    assert_eq!(t.len(), 3);
    let (log, r) = run(t, &never);
    assert!(r.is_ok());
    assert_eq!(
        log,
        vec!["stop 3 true", "rmdir a/b/c", "stop 2 true", "rmdir a/b", "stop 1 true", "rmdir a"]
    );
    assert_eq!(cells.len(), 0);
    assert_eq!(cells.get(&name("a/b")).unwrap_err().kind(), ErrorKind::CellNotFound);
}

#[test]
fn duplicate_rejection() {
    let mut cells = Cells::new();
    add_cell(&mut cells, "x", 10);
    let e = cells.allocate(name("x"), spec(), attached(11)).unwrap_err();
    assert_eq!(e.kind(), ErrorKind::CellExists);
    assert_eq!(e.cell_name().unwrap().to_path(), "x");
    assert_eq!(cells.len(), 1);
    assert_eq!(cells.get(&name("x")).unwrap().pid(), Some(10));
}

#[test]
fn allocation_abort_leaves_no_entry() {
    let mut cells = Cells::new();
    let launch = Launch::AttachFailed { daemon: daemon(5), reason: "invalid cpuset".to_string() };
    let cleanup = launch.abort_cleanup(&name("bad")).expect("cleanup is owed");
    let (log, r) = run(cleanup, &never);
    assert!(r.is_ok());
    assert_eq!(log, vec!["stop 5 false".to_string(), "rmdir bad".to_string()]);
    assert!(attached(6).abort_cleanup(&name("bad")).is_none());
    let e = cells.allocate(name("bad"), spec(), launch).unwrap_err();
    assert_eq!(e.kind(), ErrorKind::AbortedAllocateCell);
    assert_eq!(e.cell_name().unwrap().to_path(), "bad");
    assert_eq!(cells.len(), 0);
    assert_eq!(cells.get(&name("bad")).unwrap_err().kind(), ErrorKind::CellNotFound);
}

#[test]
fn spawn_failure_leaves_no_entry() {
    let mut cells = Cells::new();
    let e = cells
        .allocate(name("bad"), spec(), Launch::SpawnFailed { reason: "exec".to_string() })
        .unwrap_err();
    assert_eq!(e.kind(), ErrorKind::FailedToAllocateCell);
    assert!(matches!(&e, auraed::error::CellsError::FailedToAllocateCell { source, .. } if source == "exec"));
    assert_eq!(cells.len(), 0);
}

#[test]
fn drop_reconciliation_kills_everything() {
    let mut cells = Cells::new();
    add_cell(&mut cells, "a", 1);
    add_cell(&mut cells, "b", 2);
    add_cell(&mut cells, "c", 3);
    let t = cells.broadcast_kill();
    let (log, r) = run(t, &never);
    assert!(r.is_ok());
    assert_eq!(
        log,
        vec!["stop 1 false", "rmdir a", "stop 2 false", "rmdir b", "stop 3 false", "rmdir c"]
    );
    assert_eq!(cells.len(), 3);
    for n in ["a", "b", "c"] {
        assert_eq!(cells.get(&name(n)).unwrap().phase(), Phase::Freed);
    }
}

#[test]
fn broadcast_under_partial_failure() {
    let mut cells = Cells::new();
    add_cell(&mut cells, "p", 1);
    add_cell(&mut cells, "p/a", 2);
    add_cell(&mut cells, "p/b", 3);
    let t = cells.free(&name("p")).unwrap();
    let fail = |a: &Action| matches!(a, Action::RemoveCgroup { cell_name } if cell_name.to_path() == "p/a");
    let (log, r) = run(t, &fail);
    let e = r.unwrap_err();
    assert_eq!(e.kind(), ErrorKind::FailedToFreeCell);
    assert_eq!(e.cell_name().unwrap().to_path(), "p/a");
    assert!(matches!(&e, auraed::error::CellsError::FailedToFreeCell { source, .. } if source == "failed: rmdir p/a"));
    assert!(log.contains(&"rmdir p/b".to_string()));
    assert!(log.contains(&"rmdir p".to_string()));
    assert_eq!(cells.len(), 0);
}

#[test]
fn stop_failure_keeps_cgroup_and_goes_on() {
    let mut cells = Cells::new();
    add_cell(&mut cells, "p", 1);
    add_cell(&mut cells, "p/a", 2);
    let t = cells.kill(&name("p")).unwrap();
    let fail = |a: &Action| matches!(a, Action::Stop { pid: 2, .. });
    let (log, r) = run(t, &fail);
    assert_eq!(log, vec!["stop 2 false", "stop 1 false", "rmdir p"]);
    let e = r.unwrap_err();
    assert_eq!(e.kind(), ErrorKind::FailedToKillCellChildren);
    assert_eq!(e.cell_name().unwrap().to_path(), "p/a");
}

#[test]
fn allocate_then_free_restores_cache() {
    let mut cells = Cells::new();
    add_cell(&mut cells, "keep", 1);
    add_cell(&mut cells, "tmp", 2);
    let _ = cells.free(&name("tmp")).unwrap();
    assert_eq!(cells.len(), 1);
    let g = cells.cell_graph();
    assert_eq!(g.len(), 1);
    assert_eq!(g[0].cell_name.to_path(), "keep");
    add_cell(&mut cells, "tmp", 3);
    assert_eq!(cells.get(&name("tmp")).unwrap().pid(), Some(3));
}

#[test]
fn allocate_below_missing_parent_is_not_found() {
    let mut cells = Cells::new();
    let e = cells.allocate(name("a/b"), spec(), attached(1)).unwrap_err();
    assert_eq!(e.kind(), ErrorKind::CellNotFound);
    assert_eq!(e.cell_name().unwrap().to_path(), "a");
    assert_eq!(cells.len(), 0);
}

#[test]
fn allocate_below_freed_parent_is_not_allocated() {
    let mut cells = Cells::new();
    add_cell(&mut cells, "a", 1);
    let _ = cells.broadcast_free();
    let e = cells.allocate(name("a/b"), spec(), attached(2)).unwrap_err();
    assert_eq!(e.kind(), ErrorKind::CellNotAllocated);
    assert_eq!(e.cell_name().unwrap().to_path(), "a");
}

#[test]
fn free_missing_cell_is_not_found() {
    let mut cells = Cells::new();
    let e = cells.free(&name("ghost")).unwrap_err();
    assert_eq!(e.kind(), ErrorKind::CellNotFound);
    assert_eq!(e.cell_name().unwrap().to_path(), "ghost");
}

#[test]
fn freed_cell_teardown_is_empty() {
    let mut cells = Cells::new();
    add_cell(&mut cells, "a", 1);
    let _ = cells.broadcast_free();
    let t = cells.free(&name("a")).unwrap();
    assert_eq!(t.len(), 0);
    assert!(t.is_finished());
    assert_eq!(cells.len(), 0);
}
