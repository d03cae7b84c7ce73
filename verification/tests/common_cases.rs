use sysrunner::cfg::{ServiceData, ServicesList};
use sysrunner::cli::{CliArgs, CliPlan, Commands};
use sysrunner::log::LogLevel;
use sysrunner::service::{ServiceState, StartReason, StartResult};
use sysrunner::text::{join_strings, split_words, u32_text};

fn data(name: &str, enabled: bool, command: &str, deps: &[&str]) -> ServiceData {
    ServiceData {
        name: name.to_string(),
        enabled,
        command: command.to_string(),
        depends: deps.iter().map(|d| d.to_string()).collect(),
    }
}

#[test]
fn active_states() {
    assert!(ServiceState::Starting.is_active());
    assert!(ServiceState::Running.is_active());
    assert!(ServiceState::Stopping.is_active());
    for st in [
        ServiceState::NotProcessed,
        ServiceState::Pending,
        ServiceState::Stopped,
        ServiceState::Exited,
        ServiceState::Failed(None),
        ServiceState::Failed(Some(3)),
        ServiceState::SpawnFailure,
    ] {
        assert!(!st.is_active(), "{:?}", st);
    }
}

#[test]
fn pending_state() {
    assert!(ServiceState::Pending.is_pending());
    assert!(!ServiceState::Pending.is_active());
    assert!(!ServiceState::Running.is_pending());
    assert!(!ServiceState::NotProcessed.is_pending());
}

#[test]
fn state_names() {
    assert_eq!(ServiceState::NotProcessed.to_string(), "Not processed");
    assert_eq!(ServiceState::Pending.to_string(), "Pending");
    assert_eq!(ServiceState::Starting.to_string(), "Starting");
    assert_eq!(ServiceState::Running.to_string(), "Running");
    assert_eq!(ServiceState::Stopping.to_string(), "Stopping");
    assert_eq!(ServiceState::Stopped.to_string(), "Stopped");
    assert_eq!(ServiceState::Exited.to_string(), "Exited");
    assert_eq!(ServiceState::Failed(None).to_string(), "Failed");
    assert_eq!(ServiceState::Failed(Some(1)).to_string(), "Failed (status code 1)");
    assert_eq!(ServiceState::Failed(Some(0)).to_string(), "Failed (status code 0)");
    assert_eq!(ServiceState::Failed(Some(-15)).to_string(), "Failed (status code -15)");
    assert_eq!(
        ServiceState::Failed(Some(i32::MIN)).to_string(),
        format!("Failed (status code {})", i32::MIN)
    );
    assert_eq!(
        ServiceState::Failed(Some(i32::MAX)).to_string(),
        format!("Failed (status code {})", i32::MAX)
    );
    assert_eq!(ServiceState::SpawnFailure.to_string(), "Process spawn failed");
}

#[test]
fn error_levels() {
    assert!(!LogLevel::Info.is_error());
    assert!(!LogLevel::Warn.is_error());
    assert!(LogLevel::Error.is_error());
    assert!(LogLevel::Critical.is_error());
}

#[test]
fn fresh_service_from_config() {
    let d = data("web", true, "/bin/web --port 80", &["net"]);
    let s = d.clone().to_service();
    assert_eq!(s.data.name, "web");
    assert!(s.data.enabled);
    assert_eq!(s.data.command, "/bin/web --port 80");
    assert_eq!(s.data.depends, vec!["net".to_string()]);
    assert_eq!(s.state, ServiceState::NotProcessed);
    assert_eq!(s.pid, None);
    assert_eq!(s.reasn, StartReason::NotStarted);
}

#[test]
fn decimal_numbers() {
    assert_eq!(u32_text(0), "0");
    assert_eq!(u32_text(7), "7");
    assert_eq!(u32_text(10), "10");
    assert_eq!(u32_text(4096), "4096");
    assert_eq!(u32_text(u32::MAX), "4294967295");
}

#[test]
fn command_line_words() {
    assert_eq!(split_words("/bin/sleep 10"), vec!["/bin/sleep", "10"]);
    assert_eq!(split_words("  a\t b\n\nc  "), vec!["a", "b", "c"]);
    assert_eq!(split_words(""), Vec::<String>::new());
    assert_eq!(split_words(" \t "), Vec::<String>::new());
    assert_eq!(split_words("x\u{a0}y\u{3000}z"), vec!["x", "y", "z"]);
    let line = "one  two\u{2003}three\u{85}four";
    let expected: Vec<String> = line.split_whitespace().map(|s| s.to_string()).collect();
    assert_eq!(split_words(line), expected);
}

#[test]
fn joined_names() {
    let v: Vec<String> = vec!["a".into(), "bc".into(), "d".into()];
    assert_eq!(join_strings(&v, ", "), "a, bc, d");
    assert_eq!(join_strings(&Vec::new(), ", "), "");
    assert_eq!(join_strings(&vec!["x".to_string()], ", "), "x");
}

#[test]
fn start_results_compare() {
    assert_eq!(StartResult::Success, StartResult::Success);
    assert_ne!(StartResult::DepFault, StartResult::SpawnFault);
}

#[test]
fn cli_plans() {
    let plan = |c: Option<Commands>| CliArgs { command: c }.plan();
    assert!(matches!(plan(Some(Commands::Serve)), CliPlan::Serve));
    assert!(matches!(plan(None), CliPlan::Usage));
    assert!(matches!(plan(Some(Commands::Restart)), CliPlan::Usage));
    assert!(matches!(plan(Some(Commands::Enable)), CliPlan::Usage));
    assert!(matches!(plan(Some(Commands::Disable)), CliPlan::Usage));
    match plan(Some(Commands::Start { service_names: vec!["a".into(), "b".into()] })) {
        CliPlan::Send(m) => {
            assert_eq!(m.len(), 2);
            assert!(matches!(&m[0], sysrunner::manager::IpcCommand::Start(n) if n == "a"));
            assert!(matches!(&m[1], sysrunner::manager::IpcCommand::Start(n) if n == "b"));
        }
        _ => panic!("expected messages"),
    }
    match plan(Some(Commands::Stop { service_names: vec!["a".into()] })) {
        CliPlan::Send(m) => {
            assert_eq!(m.len(), 1);
            assert!(matches!(&m[0], sysrunner::manager::IpcCommand::Stop(n) if n == "a"));
        }
        _ => panic!("expected messages"),
    }
    match plan(Some(Commands::Status { service_name: "db".into() })) {
        CliPlan::Send(m) => {
            assert!(matches!(&m[..], [sysrunner::manager::IpcCommand::Status(n)] if n == "db"))
        }
        _ => panic!("expected messages"),
    }
    match plan(Some(Commands::Pid { service_name: "db".into() })) {
        CliPlan::Send(m) => assert!(matches!(&m[..], [sysrunner::manager::IpcCommand::Pid(n)] if n == "db")),
        _ => panic!("expected messages"),
    }
    match plan(Some(Commands::Ping)) {
        CliPlan::Send(m) => assert!(matches!(&m[..], [sysrunner::manager::IpcCommand::Ping])),
        _ => panic!("expected messages"),
    }
    match plan(Some(Commands::Ps)) {
        CliPlan::Send(m) => assert!(matches!(&m[..], [sysrunner::manager::IpcCommand::Ps])),
        _ => panic!("expected messages"),
    }
    match plan(Some(Commands::Shutdown)) {
        CliPlan::Send(m) => assert!(matches!(&m[..], [sysrunner::manager::IpcCommand::Shutdown])),
        _ => panic!("expected messages"),
    }
}

#[test]
fn services_list_holds_entries() {
    let l = ServicesList { services: vec![("a".to_string(), data("a", true, "x", &[]))] };
    assert_eq!(l.services.len(), 1);
}
