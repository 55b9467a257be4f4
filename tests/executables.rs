use auraed::executable::{CommandSpec, Executable, ExecutableSpec, ExecutableState};
use auraed::validation::ExecutableName;

fn exe() -> Executable {
    let name = ExecutableName::validate(Some("sleeper".to_string()), "name", None).unwrap();
    Executable::new(ExecutableSpec {
        name,
        description: "sleeps".to_string(),
        command: CommandSpec { program: "sleep".to_string(), args: vec!["400".to_string()] },
    })
}

#[test]
fn executable_lifecycle() {
    let mut e = exe();
    assert_eq!(e.state(), ExecutableState::Init);
    assert_eq!(e.pid(), None);
    assert_eq!(e.command().program, "sleep");
    e.start(Ok(321)).unwrap();
    assert_eq!(e.state(), ExecutableState::Started { pid: 321 });
    assert_eq!(e.pid(), Some(321));
    e.start(Ok(999)).unwrap();
    assert_eq!(e.pid(), Some(321));
    assert_eq!(e.kill(9), Some(9));
    assert_eq!(e.state(), ExecutableState::Stopped { exit_status: 9 });
    assert_eq!(e.kill(0), Some(9));
    assert_eq!(e.pid(), None);
}

#[test]
fn executable_kill_before_start() {
    let mut e = exe();
    assert_eq!(e.kill(1), None);
    assert_eq!(e.state(), ExecutableState::Init);
    assert_eq!(e.start(Err("no such program".to_string())), Err("no such program".to_string()));
    assert_eq!(e.state(), ExecutableState::Init);
}

#[test]
fn executable_log_channels() {
    let e = exe();
    let (out, err) = e.log_channels();
    assert_eq!(out, "sleeper::stdout");
    assert_eq!(err, "sleeper::stderr");
    assert_eq!(e.name.as_str(), "sleeper");
    assert_eq!(e.description, "sleeps");
}
