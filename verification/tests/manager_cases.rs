use sysrunner::cfg::{ServiceData, ServicesList};
use sysrunner::deps::DepGraph;
use sysrunner::manager::{CommandReply, IpcCommand, ProcessStatus, ServiceManager};
use sysrunner::service::{ServiceState, StartReason, StartResult};
use sysrunner::start::{SpawnOutcome, StartJob, StartStep};
use sysrunner::startup::{StartupRun, StartupStep};
use sysrunner::table::NameMap;

fn data(name: &str, enabled: bool, command: &str, deps: &[&str]) -> ServiceData {
    ServiceData {
        name: name.to_string(),
        enabled,
        command: command.to_string(),
        depends: deps.iter().map(|d| d.to_string()).collect(),
    }
}

fn list(ds: Vec<ServiceData>) -> ServicesList {
    ServicesList { services: ds.into_iter().map(|d| (d.name.clone(), d)).collect() }
}

fn manager(ds: Vec<ServiceData>) -> ServiceManager {
    let mut m = ServiceManager::new();
    m.setup_from_lists(&vec![list(ds)]);
    m
}

fn text(r: CommandReply) -> String {
    match r {
        CommandReply::Ready(IpcCommand::Response(s)) => s,
        other => panic!("expected a text reply, got {:?}", other),
    }
}

fn ask(m: &mut ServiceManager, c: IpcCommand) -> String {
    text(m.process_command(&c))
}

fn state_of(m: &ServiceManager, name: &str) -> ServiceState {
    m.get(&name.to_string()).expect("known service").state
}

/// Runs a start to its end; each spawn gets the next outcome (or, when
/// none is left, succeeds with a made-up id). Returns the programs spawned,
/// with their arguments, and the result.
fn run_job(
    m: &mut ServiceManager,
    job: &mut StartJob,
    outcomes: &mut Vec<SpawnOutcome>,
) -> (Vec<(String, Vec<String>)>, StartResult) {
    let mut spawned = Vec::new();
    let mut event = None;
    let mut next_pid = 100;
    for _ in 0..10_000 {
        match m.step_start(job, event.take()) {
            StartStep::Continue | StartStep::Notice(_) => {}
            StartStep::Spawn(req) => {
                spawned.push((req.program.clone(), req.args.clone()));
                let o = if outcomes.is_empty() {
                    next_pid += 1;
                    SpawnOutcome::Spawned(next_pid)
                } else {
                    outcomes.remove(0)
                };
                event = Some(o);
            }
            StartStep::Done(r) => return (spawned, r),
        }
    }
    panic!("start did not end");
}

fn start(m: &mut ServiceManager, name: &str, outcomes: Vec<SpawnOutcome>) -> (Vec<(String, Vec<String>)>, String) {
    let mut outcomes = outcomes;
    let name = name.to_string();
    match m.process_command(&IpcCommand::Start(name.clone())) {
        CommandReply::Ready(IpcCommand::Response(s)) => (vec![], s),
        CommandReply::Start(mut job) => {
            let (spawned, _) = run_job(m, &mut job, &mut outcomes);
            match m.finish_start_command(&name, &job) {
                IpcCommand::Response(s) => (spawned, s),
                other => panic!("unexpected {:?}", other),
            }
        }
        other => panic!("unexpected {:?}", other),
    }
}

#[test]
fn ping_answers_pong() {
    let mut m = manager(vec![]);
    assert_eq!(ask(&mut m, IpcCommand::Ping), "Pong");
}

#[test]
fn unknown_commands() {
    let mut m = manager(vec![data("a", true, "x", &[])]);
    for c in [
        IpcCommand::Nothing,
        IpcCommand::Response("hi".into()),
        IpcCommand::Restart("a".into()),
        IpcCommand::Enable("a".into()),
        IpcCommand::Disable("a".into()),
    ] {
        assert_eq!(ask(&mut m, c), "Unknown command");
    }
}

#[test]
fn start_unknown_service() {
    let mut m = manager(vec![]);
    let (spawned, reply) = start(&mut m, "ghost", vec![]);
    assert!(spawned.is_empty());
    assert_eq!(reply, "Unknown service name: ghost");
}

#[test]
fn start_launches_dependencies_first() {
    let mut m = manager(vec![
        data("web", false, "/bin/web --port 8080", &["db", "net"]),
        data("db", false, "/bin/db", &["net"]),
        data("net", false, "/bin/net up", &[]),
    ]);
    let (spawned, reply) = start(&mut m, "web", vec![
        SpawnOutcome::Spawned(11),
        SpawnOutcome::Spawned(12),
        SpawnOutcome::Spawned(13),
    ]);
    assert_eq!(reply, "Success.");
    assert_eq!(
        spawned,
        vec![
            ("/bin/net".to_string(), vec!["up".to_string()]),
            ("/bin/db".to_string(), vec![]),
            ("/bin/web".to_string(), vec!["--port".to_string(), "8080".to_string()]),
        ]
    );
    for n in ["web", "db", "net"] {
        assert_eq!(state_of(&m, n), ServiceState::Starting);
    }
    assert_eq!(m.get(&"net".to_string()).unwrap().pid, Some(11));
    assert_eq!(m.get(&"db".to_string()).unwrap().pid, Some(12));
    assert_eq!(m.get(&"web".to_string()).unwrap().pid, Some(13));
    assert_eq!(m.get(&"web".to_string()).unwrap().reasn, StartReason::OnDemand);
    assert_eq!(m.get(&"db".to_string()).unwrap().reasn, StartReason::AsDep);
    assert_eq!(ask(&mut m, IpcCommand::Pid("db".into())), "12");
}

#[test]
fn start_of_active_service() {
    let mut m = manager(vec![data("a", false, "/bin/a", &[])]);
    let (_, reply) = start(&mut m, "a", vec![SpawnOutcome::Spawned(5)]);
    assert_eq!(reply, "Success.");
    let (spawned, reply) = start(&mut m, "a", vec![]);
    assert!(spawned.is_empty());
    assert_eq!(reply, "a is already active (state: Starting)");
}

#[test]
fn start_with_unknown_dependency() {
    let mut m = manager(vec![data("a", false, "/bin/a", &["missing", "b"]), data("b", false, "/bin/b", &[])]);
    let (spawned, reply) = start(&mut m, "a", vec![]);
    assert!(spawned.is_empty());
    assert_eq!(reply, "Unexpected Dependency fault!");
    assert_eq!(state_of(&m, "a"), ServiceState::NotProcessed);
    assert_eq!(state_of(&m, "b"), ServiceState::NotProcessed);
}

#[test]
fn start_with_failing_dependency() {
    let mut m = manager(vec![
        data("a", false, "/bin/a", &["b", "c"]),
        data("b", false, "/bin/b", &[]),
        data("c", false, "/bin/c", &[]),
    ]);
    let (spawned, reply) = start(&mut m, "a", vec![SpawnOutcome::Failed, SpawnOutcome::Spawned(9)]);
    // b fails; c is still started; a is not launched.
    assert_eq!(spawned.len(), 2);
    assert_eq!(spawned[0].0, "/bin/b");
    assert_eq!(spawned[1].0, "/bin/c");
    assert_eq!(reply, "Unexpected Dependency fault!");
    assert_eq!(state_of(&m, "b"), ServiceState::NotProcessed);
    assert_eq!(state_of(&m, "c"), ServiceState::Starting);
    assert_eq!(state_of(&m, "a"), ServiceState::NotProcessed);
}

#[test]
fn start_spawn_failure() {
    let mut m = manager(vec![data("a", false, "/bin/a -x", &[])]);
    let (spawned, reply) = start(&mut m, "a", vec![SpawnOutcome::Failed]);
    assert_eq!(spawned, vec![("/bin/a".to_string(), vec!["-x".to_string()])]);
    assert_eq!(reply, "Spawn fault");
    assert_eq!(state_of(&m, "a"), ServiceState::NotProcessed);
}

#[test]
fn start_without_command() {
    let mut m = manager(vec![data("a", false, "   ", &[])]);
    let (spawned, reply) = start(&mut m, "a", vec![]);
    assert!(spawned.is_empty());
    assert_eq!(reply, "Success.");
    assert_eq!(state_of(&m, "a"), ServiceState::Starting);
    assert_eq!(m.get(&"a".to_string()).unwrap().pid, None);
    assert_eq!(ask(&mut m, IpcCommand::Pid("a".into())), "Internal error: pid of service is unknown.");
}

#[test]
fn start_of_pending_service() {
    let mut s = data("a", false, "/bin/a", &[]).to_service();
    s.state = ServiceState::Pending;
    let mut m = manager(vec![]);
    let mut job = StartJob::begin(s, StartReason::OnDemand);
    assert!(job.is_done());
    let (spawned, r) = run_job(&mut m, &mut job, &mut vec![]);
    assert!(spawned.is_empty());
    assert_eq!(r, StartResult::AlreadyActive);
    assert_eq!(
        match m.finish_start_command(&"a".to_string(), &job) {
            IpcCommand::Response(t) => t,
            _ => panic!(),
        },
        "Other error: AlreadyActive"
    );
}

#[test]
fn start_job_for_service_not_in_table() {
    let mut m = manager(vec![data("a", false, "/bin/a", &[])]);
    let b = data("b", false, "/bin/b", &["a"]).to_service();
    let mut job = StartJob::begin(b, StartReason::OnDemand);
    let (spawned, r) = run_job(&mut m, &mut job, &mut vec![SpawnOutcome::Spawned(1), SpawnOutcome::Spawned(2)]);
    assert_eq!(r, StartResult::Success);
    assert_eq!(spawned.len(), 2);
    assert_eq!(state_of(&m, "a"), ServiceState::Starting);
    assert_eq!(state_of(&m, "b"), ServiceState::Starting);
}

#[test]
fn pid_replies() {
    let mut m = manager(vec![data("a", false, "/bin/a", &[])]);
    assert_eq!(ask(&mut m, IpcCommand::Pid("zz".into())), "No such service zz");
    assert_eq!(ask(&mut m, IpcCommand::Pid("a".into())), "Service a is not up (it is Not processed)");
    start(&mut m, "a", vec![SpawnOutcome::Spawned(4242)]);
    assert_eq!(ask(&mut m, IpcCommand::Pid("a".into())), "4242");
}

#[test]
fn status_replies() {
    let mut m = manager(vec![
        data("web", true, "/bin/web", &["db"]),
        data("db", false, "/bin/db", &[]),
        data("job", true, "/bin/job", &["db"]),
    ]);
    assert_eq!(ask(&mut m, IpcCommand::Status("nope".into())), "No such service nope");
    let expected_db = format!(
        "Service {}\nEnabled: {}\nState: {}\nStarted because: {}\nPId: {}\nDepends on: {:?}\nRequired for: {:?}\n",
        "db",
        false,
        "Not processed",
        "(not active)",
        "(unavailable)",
        Vec::<String>::new(),
        vec!["web".to_string(), "job".to_string()]
    );
    assert_eq!(ask(&mut m, IpcCommand::Status("db".into())), expected_db);
    start(&mut m, "web", vec![SpawnOutcome::Spawned(7), SpawnOutcome::Spawned(8)]);
    let expected_web = format!(
        "Service {}\nEnabled: {}\nState: {}\nStarted because: {}\nPId: {}\nDepends on: {:?}\nRequired for: {:?}\n",
        "web",
        true,
        "Starting",
        "OnDemand",
        8,
        vec!["db".to_string()],
        Vec::<String>::new()
    );
    assert_eq!(ask(&mut m, IpcCommand::Status("web".into())), expected_web);
    let db = ask(&mut m, IpcCommand::Status("db".into()));
    assert!(db.contains("Started because: AsDep\n"));
    assert!(db.contains("PId: 7\n"));
}

#[test]
fn status_quotes_names() {
    let mut m = manager(vec![data("a", false, "/bin/a", &["we\"ird\\name"])]);
    let s = ask(&mut m, IpcCommand::Status("a".into()));
    assert!(s.contains("Depends on: [\"we\\\"ird\\\\name\"]\n"), "{}", s);
    assert!(s.ends_with("Required for: []\n"));
}

#[test]
fn ps_table() {
    let mut m = manager(vec![
        data("alpha", false, "/bin/a", &[]),
        data("beta", false, "", &["alpha"]),
        data("gamma", false, "/bin/g", &[]),
    ]);
    let header = format!("{:<20} {:<10} {:<10} {:<15}\n", "SERVICE", "PID", "STATE", "DEPENDS");
    assert_eq!(ask(&mut m, IpcCommand::Ps), header);
    start(&mut m, "beta", vec![SpawnOutcome::Spawned(31)]);
    let expected = format!(
        "{}{:<20} {:<10} {} {:<15}\n{:<20} {:<10} {} {:<15}\n",
        header, "alpha", "31", "Starting", "", "beta", "-", "Starting", "alpha"
    );
    assert_eq!(ask(&mut m, IpcCommand::Ps), expected);
}

#[test]
fn ps_pads_only_short_fields() {
    let long = "a-service-with-a-very-long-name";
    let mut m = manager(vec![data(long, false, "", &["x1", "x2", "x3", "x4", "x5"]),
        data("x1", false, "", &[]), data("x2", false, "", &[]), data("x3", false, "", &[]),
        data("x4", false, "", &[]), data("x5", false, "", &[])]);
    start(&mut m, long, vec![]);
    let ps = ask(&mut m, IpcCommand::Ps);
    assert!(ps.contains(&format!("{} {:<10} Starting x1, x2, x3, x4, x5\n", long, "-")), "{}", ps);
}

#[test]
fn config_files_merge_later_wins() {
    let mut m = ServiceManager::new();
    let first = list(vec![data("a", true, "/bin/a1", &[]), data("b", true, "/bin/b", &[])]);
    let second = list(vec![data("a", false, "/bin/a2", &["b"])]);
    m.setup_from_lists(&vec![first, second]);
    assert_eq!(m.len(), 2);
    assert_eq!(m.name_at(0), "a");
    assert_eq!(m.name_at(1), "b");
    let a = m.service_at(0);
    assert_eq!(a.data.command, "/bin/a2");
    assert!(!a.data.enabled);
    assert_eq!(a.state, ServiceState::NotProcessed);
    let st = ask(&mut m, IpcCommand::Status("b".into()));
    assert!(st.ends_with("Required for: [\"a\"]\n"));
}

#[test]
fn dependency_graph_directions() {
    let mut m = manager(vec![
        data("a", true, "x", &["b", "c"]),
        data("b", true, "x", &["c"]),
        data("c", true, "x", &[]),
    ]);
    let _ = &mut m;
    let mut table: NameMap<sysrunner::service::Service> = NameMap::new();
    for i in 0..m.len() {
        table.insert(m.name_at(i).clone(), m.service_at(i).clone());
    }
    let g = DepGraph::from_services(&table);
    assert_eq!(g.direct.get(&"a".to_string()).unwrap(), &vec!["b".to_string(), "c".to_string()]);
    assert_eq!(g.direct.get(&"c".to_string()).unwrap(), &Vec::<String>::new());
    assert_eq!(g.reverse.get(&"c".to_string()).unwrap(), &vec!["a".to_string(), "b".to_string()]);
    assert_eq!(g.reverse.get(&"b".to_string()).unwrap(), &vec!["a".to_string()]);
    assert!(g.reverse.get(&"a".to_string()).is_none());
    // Each direction agrees with the other.
    for i in 0..g.direct.len() {
        let a = g.direct.key_at(i);
        for b in g.direct.value_at(i) {
            assert!(g.reverse.get(b).unwrap().contains(a));
        }
    }
    for i in 0..g.reverse.len() {
        let b = g.reverse.key_at(i);
        for a in g.reverse.value_at(i) {
            assert!(g.direct.get(a).unwrap().contains(b));
        }
    }
}

#[test]
fn watching_processes() {
    let mut m = manager(vec![data("a", false, "/bin/a", &[]), data("b", false, "/bin/b", &[])]);
    assert!(!m.any_active());
    assert!(m.processes().is_empty());
    start(&mut m, "a", vec![SpawnOutcome::Spawned(77)]);
    assert!(m.any_active());
    assert_eq!(m.processes(), vec![("a".to_string(), 77)]);
    m.record_status(&"a".to_string(), ProcessStatus::Alive);
    assert_eq!(state_of(&m, "a"), ServiceState::Running);
    m.record_status(&"a".to_string(), ProcessStatus::Ended { success: false, code: Some(3) });
    assert_eq!(state_of(&m, "a"), ServiceState::Failed(Some(3)));
    assert!(!m.any_active());
    m.record_status(&"a".to_string(), ProcessStatus::Ended { success: true, code: Some(0) });
    assert_eq!(state_of(&m, "a"), ServiceState::Exited);
    m.record_status(&"a".to_string(), ProcessStatus::Ended { success: false, code: None });
    assert_eq!(state_of(&m, "a"), ServiceState::Failed(None));
    m.record_status(&"zzz".to_string(), ProcessStatus::Alive);
    assert_eq!(m.len(), 2);
    assert_eq!(state_of(&m, "b"), ServiceState::NotProcessed);
    // The pid stays known after the process ended.
    assert_eq!(m.processes(), vec![("a".to_string(), 77)]);
}

fn run_startup(m: &mut ServiceManager, fail: &[&str]) -> (Vec<String>, Vec<Vec<(String, ServiceState)>>, Option<Vec<String>>) {
    let mut run = StartupRun::new();
    let mut event = None;
    let mut spawned = Vec::new();
    let mut rounds = Vec::new();
    let mut pid = 500;
    for _ in 0..100_000 {
        match m.step_startup(&mut run, event.take()) {
            StartupStep::Continue | StartupStep::Notice(_) => {}
            StartupStep::Spawn(req) => {
                spawned.push(req.program.clone());
                if fail.contains(&req.program.as_str()) {
                    event = Some(SpawnOutcome::Failed);
                } else {
                    pid += 1;
                    event = Some(SpawnOutcome::Spawned(pid));
                }
            }
            StartupStep::Progress(c) => rounds.push(c),
            StartupStep::Deadlock(down) => {
                return (spawned, rounds, Some(down.iter().map(|s| s.data.name.clone()).collect()))
            }
            StartupStep::Complete => return (spawned, rounds, None),
        }
    }
    panic!("start-up did not end");
}

#[test]
fn startup_brings_up_enabled_services() {
    let mut m = manager(vec![
        data("web", true, "web", &["db"]),
        data("db", false, "db", &[]),
        data("tool", false, "tool", &[]),
        data("cron", true, "cron", &[]),
    ]);
    let (spawned, rounds, deadlock) = run_startup(&mut m, &[]);
    assert!(deadlock.is_none());
    assert_eq!(spawned, vec!["db", "web", "cron"]);
    assert_eq!(rounds.len(), 1);
    assert_eq!(
        rounds[0],
        vec![
            ("web".to_string(), ServiceState::Starting),
            ("db".to_string(), ServiceState::Starting),
            ("cron".to_string(), ServiceState::Starting),
        ]
    );
    assert_eq!(state_of(&m, "tool"), ServiceState::NotProcessed);
    assert_eq!(m.get(&"web".to_string()).unwrap().reasn, StartReason::Enabled);
    assert_eq!(m.get(&"db".to_string()).unwrap().reasn, StartReason::AsDep);
    // Once everything enabled is up, start-up has nothing more to do.
    let mut run = StartupRun::new();
    assert!(matches!(m.step_startup(&mut run, None), StartupStep::Complete));
}

#[test]
fn startup_gives_up_on_deadlock() {
    let mut m = manager(vec![
        data("a", true, "a", &["missing"]),
        data("b", true, "b", &[]),
        data("c", true, "c", &[]),
    ]);
    let (spawned, rounds, deadlock) = run_startup(&mut m, &["c"]);
    assert_eq!(spawned, vec!["b", "c", "c"]);
    assert_eq!(rounds.len(), 1);
    assert_eq!(rounds[0], vec![("b".to_string(), ServiceState::Starting)]);
    assert_eq!(deadlock, Some(vec!["a".to_string(), "c".to_string()]));
    assert_eq!(state_of(&m, "b"), ServiceState::Starting);
}

#[test]
fn startup_with_nothing_enabled() {
    let mut m = manager(vec![data("a", false, "a", &[])]);
    let (spawned, rounds, deadlock) = run_startup(&mut m, &[]);
    assert!(spawned.is_empty());
    assert!(rounds.is_empty());
    assert!(deadlock.is_none());
}

#[test]
fn started_service_stays_active_during_startup() {
    let mut m = manager(vec![
        data("a", true, "a", &["shared"]),
        data("b", true, "b", &["shared"]),
        data("shared", false, "shared", &[]),
    ]);
    let (spawned, _, deadlock) = run_startup(&mut m, &[]);
    assert!(deadlock.is_none());
    // The shared dependency is launched once; later it is found active.
    assert_eq!(spawned, vec!["shared", "a", "b"]);
    assert_eq!(state_of(&m, "shared"), ServiceState::Starting);
}

#[test]
fn table_name_differs_from_service_name() {
    let mut m = ServiceManager::new();
    let l = ServicesList { services: vec![("w".to_string(), data("web", false, "/bin/web", &[]))] };
    m.setup_from_lists(&vec![l]);
    let (_, reply) = start(&mut m, "w", vec![SpawnOutcome::Spawned(3)]);
    assert_eq!(reply, "Success.");
    // The started service is written under its own name and under the name asked for.
    assert_eq!(m.len(), 2);
    assert_eq!(m.name_at(1), "web");
    assert_eq!(state_of(&m, "w"), ServiceState::Starting);
    assert_eq!(state_of(&m, "web"), ServiceState::Starting);
}

#[test]
fn stop_replies_and_states() {
    let mut m = manager(vec![data("a", false, "/bin/a", &[]), data("b", false, "", &[])]);
    assert!(matches!(
        m.process_command(&IpcCommand::Stop("zz".into())),
        CommandReply::Ready(IpcCommand::Response(t)) if t == "No such service zz"
    ));
    assert!(matches!(
        m.process_command(&IpcCommand::Stop("a".into())),
        CommandReply::Ready(IpcCommand::Response(t)) if t == "Service a is not up (it is Not processed)"
    ));
    start(&mut m, "a", vec![SpawnOutcome::Spawned(40)]);
    start(&mut m, "b", vec![]);
    match m.process_command(&IpcCommand::Stop("a".into())) {
        CommandReply::Kill(IpcCommand::Response(t), pid) => {
            assert_eq!(t, "Stopping a.");
            assert_eq!(pid, 40);
        }
        other => panic!("unexpected {:?}", other),
    }
    assert_eq!(state_of(&m, "a"), ServiceState::Stopping);
    m.record_status(&"a".to_string(), ProcessStatus::Alive);
    assert_eq!(state_of(&m, "a"), ServiceState::Stopping);
    m.record_status(&"a".to_string(), ProcessStatus::Ended { success: false, code: None });
    assert_eq!(state_of(&m, "a"), ServiceState::Stopped);
    assert!(!state_of(&m, "a").is_active());
    m.record_status(&"a".to_string(), ProcessStatus::Ended { success: false, code: None });
    assert_eq!(state_of(&m, "a"), ServiceState::Stopped);
    assert!(matches!(
        m.process_command(&IpcCommand::Stop("b".into())),
        CommandReply::Ready(IpcCommand::Response(t)) if t == "Stopped b."
    ));
    assert_eq!(state_of(&m, "b"), ServiceState::Stopped);
    assert!(!m.any_active());
}

#[test]
fn shutdown_stops_watching() {
    let mut m = manager(vec![data("a", false, "/bin/a", &[])]);
    start(&mut m, "a", vec![SpawnOutcome::Spawned(2)]);
    assert!(m.keep_watching());
    assert_eq!(ask(&mut m, IpcCommand::Shutdown), "Shutting down.");
    assert!(m.any_active());
    assert!(!m.keep_watching());
}

#[test]
fn handled_commands() {
    assert!(IpcCommand::Ping.is_handled());
    assert!(IpcCommand::Stop("a".into()).is_handled());
    assert!(IpcCommand::Shutdown.is_handled());
    assert!(!IpcCommand::Restart("a".into()).is_handled());
    assert!(!IpcCommand::Nothing.is_handled());
}

#[test]
fn start_notices() {
    let mut m = manager(vec![
        data("a", false, "/bin/a", &["b", "missing"]),
        data("b", false, "/bin/b", &[]),
    ]);
    let mut job = match m.process_command(&IpcCommand::Start("a".into())) {
        CommandReply::Start(j) => j,
        other => panic!("unexpected {:?}", other),
    };
    let mut notices = Vec::new();
    let mut event = None;
    loop {
        match m.step_start(&mut job, event.take()) {
            StartStep::Continue => {}
            StartStep::Notice(n) => notices.push(n),
            StartStep::Spawn(_) => event = Some(SpawnOutcome::Spawned(9)),
            StartStep::Done(r) => {
                assert_eq!(r, StartResult::DepFault);
                break;
            }
        }
    }
    assert_eq!(notices.len(), 2);
    assert!(matches!(&notices[0], sysrunner::start::StartNotice::DependencyStarted { dependency, required_by, result }
        if dependency == "b" && required_by == "a" && *result == StartResult::Success));
    assert!(matches!(&notices[1], sysrunner::start::StartNotice::UnknownDependency { service, dependency }
        if service == "a" && dependency == "missing"));
}

#[test]
fn start_ends_within_its_measure() {
    // web (two dependencies) -> db -> net: no service has more than two
    // dependencies and the deepest chain has three services, so the start
    // of web takes at most 38 answered transitions, plus one request per
    // spawn.
    let mut m = manager(vec![
        data("web", false, "/bin/web", &["db", "net"]),
        data("db", false, "/bin/db", &["net"]),
        data("net", false, "/bin/net", &[]),
    ]);
    let mut job = StartJob::begin(m.get(&"web".to_string()).unwrap().clone(), StartReason::OnDemand);
    let mut event = None;
    let mut steps = 0;
    let mut spawns = 0;
    let mut pid = 40;
    loop {
        steps += 1;
        assert!(steps <= 100, "start did not end");
        match m.step_start(&mut job, event.take()) {
            StartStep::Spawn(_) => {
                spawns += 1;
                pid += 1;
                event = Some(SpawnOutcome::Spawned(pid));
            }
            StartStep::Done(r) => {
                assert_eq!(r, StartResult::Success);
                break;
            }
            _ => {}
        }
    }
    assert_eq!(spawns, 3);
    assert!(steps - spawns <= 38);
}

#[test]
fn start_changes_only_inactive_entries_to_starting() {
    let mut m = manager(vec![
        data("app", false, "/bin/app", &["db", "cache"]),
        data("db", false, "/bin/db", &[]),
        data("cache", false, "/bin/cache", &[]),
        data("other", false, "/bin/other", &[]),
    ]);
    // cache is up already; db fails to spawn the first time it is tried
    let (_, reply) = start(&mut m, "cache", vec![SpawnOutcome::Spawned(5)]);
    assert_eq!(reply, "Success.");
    let before: Vec<(String, ServiceState, Option<u32>)> = (0..m.len())
        .map(|i| (m.name_at(i).clone(), m.service_at(i).state, m.service_at(i).pid))
        .collect();
    let (_, reply) = start(&mut m, "app", vec![SpawnOutcome::Spawned(6), SpawnOutcome::Spawned(7)]);
    assert_eq!(reply, "Success.");
    assert_eq!(m.len(), before.len());
    for (i, (name, state, pid)) in before.iter().enumerate() {
        assert_eq!(m.name_at(i), name);
        let now = m.service_at(i);
        if now.state != *state || now.pid != *pid {
            assert!(!state.is_active());
            assert_eq!(now.state, ServiceState::Starting);
        }
    }
    assert_eq!(m.get(&"cache".to_string()).unwrap().pid, Some(5));
}

#[test]
fn name_map_keeps_names_unique() {
    let mut t: NameMap<Vec<String>> = NameMap::new();
    t.insert("a".to_string(), vec![]);
    t.insert("b".to_string(), vec![]);
    t.insert("a".to_string(), vec!["x".to_string()]);
    t.push_name(&"b".to_string(), "y".to_string());
    t.push_name(&"c".to_string(), "z".to_string());
    assert_eq!(t.len(), 3);
    assert_eq!(t.key_at(0), "a");
    assert_eq!(t.key_at(1), "b");
    assert_eq!(t.key_at(2), "c");
    assert_eq!(t.get(&"a".to_string()), Some(&vec!["x".to_string()]));
    assert_eq!(t.get(&"b".to_string()), Some(&vec!["y".to_string()]));
}

#[test]
fn start_outside_the_table_only_adds_its_service() {
    let mut m = manager(vec![
        data("a", false, "/bin/a", &[]),
        data("z", false, "/bin/z", &[]),
    ]);
    let before: Vec<(String, ServiceState)> = (0..m.len()).map(|i| (m.name_at(i).clone(), m.service_at(i).state)).collect();
    let b = data("b", false, "/bin/b", &["a"]).to_service();
    let mut job = StartJob::begin(b, StartReason::OnDemand);
    let (_, r) = run_job(&mut m, &mut job, &mut vec![SpawnOutcome::Spawned(1), SpawnOutcome::Spawned(2)]);
    assert_eq!(r, StartResult::Success);
    assert_eq!(m.len(), before.len() + 1);
    for (i, (name, state)) in before.iter().enumerate() {
        assert_eq!(m.name_at(i), name);
        let now = m.service_at(i).state;
        assert!(now == *state || (!state.is_active() && now == ServiceState::Starting));
    }
    assert_eq!(state_of(&m, "z"), before[1].1);
    assert_eq!(m.name_at(2), "b");
    assert_eq!(m.service_at(2).state, ServiceState::Starting);
}

#[test]
fn startup_brings_up_every_enabled_service_and_its_dependencies() {
    // enabled services with dependencies that are not enabled themselves,
    // two levels deep, listed before and after their dependents
    let mut m = manager(vec![
        data("net", false, "net", &[]),
        data("app", true, "app", &["db", "cache"]),
        data("db", false, "db", &["net"]),
        data("cache", false, "cache", &["net"]),
        data("cron", true, "cron", &["app"]),
        data("idle", false, "idle", &[]),
    ]);
    let (spawned, rounds, deadlock) = run_startup(&mut m, &[]);
    assert!(deadlock.is_none());
    assert_eq!(rounds.len(), 1);
    assert_eq!(spawned, vec!["net", "db", "cache", "app", "cron"]);
    for n in ["app", "cron", "db", "cache", "net"] {
        assert!(state_of(&m, n).is_active());
    }
    assert_eq!(state_of(&m, "idle"), ServiceState::NotProcessed);
}
