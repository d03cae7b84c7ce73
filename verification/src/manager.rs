//! The service manager: the table of services, their dependency graph, and
//! the decisions of the init system on them.
use vstd::prelude::*;

use crate::cfg::{ServiceDataView, ServicesList};
use crate::deps::{direct_index, reverse_index, DepGraph, IndexView, TableView};
use crate::service::{state_text, Service, ServiceState, ServiceView, StartReason, StartResult};
use crate::start::{begin_spec, step, step_spec, SpawnOutcome, StartJob, StartStep};
use crate::startup::{startup_step_spec, step_startup, StartupRun, StartupStep};
use crate::table::{keys_distinct, lookup, names_of, table_insert, NameMap};
use crate::text::{
    debug_list, debug_list_text, decimal, plain_items_quoted, join, join_strings, pad_right, push_padded, u32_text,
};

verus! {

/// A message of the control protocol between the command line and the
/// running manager.
#[derive(Debug, Clone)]
pub enum IpcCommand {
    /// No message.
    Nothing,
    Response(String),
    Ping,
    Start(String),
    Stop(String),
    Restart(String),
    Enable(String),
    Disable(String),
    Status(String),
    Pid(String),
    Ps,
    Shutdown,
}

/// What a process that the manager watches was found to be doing.
#[derive(Debug, Clone, Copy, PartialEq, Eq, Structural)]
pub enum ProcessStatus {
    /// It is still running.
    Alive,
    /// It ended; `success` tells whether it exited with status zero, `code`
    /// is its exit code when it exited rather than being killed.
    Ended { success: bool, code: Option<i32> },
}

/// The state that an observation of its process gives a service in state
/// `current`. A service being stopped stays so while its process runs and
/// is stopped once it ended; a stopped service stays stopped.
pub open spec fn observed_state(current: ServiceState, st: ProcessStatus) -> ServiceState {
    match current {
        ServiceState::Stopping => match st {
            ProcessStatus::Alive => ServiceState::Stopping,
            ProcessStatus::Ended { .. } => ServiceState::Stopped,
        },
        ServiceState::Stopped => ServiceState::Stopped,
        _ => match st {
            ProcessStatus::Alive => ServiceState::Running,
            ProcessStatus::Ended { success, code } => if success {
                ServiceState::Exited
            } else {
                ServiceState::Failed(code)
            },
        },
    }
}

/// The table once the process of service `n` was observed in `status`.
pub open spec fn observed(t: TableView, n: Seq<char>, status: ProcessStatus) -> TableView {
    match lookup(t, n) {
        Some(s) => table_insert(t, n, ServiceView { state: observed_state(s.state, status), ..s }),
        None => t,
    }
}

/// Observing the process of a service changes the state of that service,
/// and of no other.
pub proof fn lemma_observation_changes_one(t: TableView, n: Seq<char>, status: ProcessStatus, k: Seq<char>)
    ensures
        k != n ==> lookup(observed(t, n, status), k) == lookup(t, k),
        lookup(t, n) is Some ==> lookup(observed(t, n, status), n) == Some(
            ServiceView { state: observed_state(lookup(t, n).unwrap().state, status), ..lookup(t, n).unwrap() },
        ),
        lookup(t, n) is None ==> observed(t, n, status) == t,
{
    if lookup(t, n) is Some {
        crate::table::lemma_lookup_insert(
            t,
            n,
            ServiceView { state: observed_state(lookup(t, n).unwrap().state, status), ..lookup(t, n).unwrap() },
            k,
        );
        crate::table::lemma_lookup_insert(
            t,
            n,
            ServiceView { state: observed_state(lookup(t, n).unwrap().state, status), ..lookup(t, n).unwrap() },
            n,
        );
    }
}

/// A service as configured, not yet processed.
pub open spec fn fresh_service(d: ServiceDataView) -> ServiceView {
    ServiceView { data: d, state: ServiceState::NotProcessed, pid: None, reasn: StartReason::NotStarted }
}

/// Table `t` with the services of one configuration file written into it,
/// in order.
pub open spec fn merge_list(t: TableView, es: Seq<(Seq<char>, ServiceDataView)>) -> TableView
    decreases es.len(),
{
    if es.len() == 0 {
        t
    } else {
        table_insert(merge_list(t, es.drop_last()), es.last().0, fresh_service(es.last().1))
    }
}

/// The services of all configuration files; a later file overrides an
/// earlier one on the same name.
pub open spec fn merged(ls: Seq<Seq<(Seq<char>, ServiceDataView)>>) -> TableView
    decreases ls.len(),
{
    if ls.len() == 0 {
        seq![]
    } else {
        merge_list(merged(ls.drop_last()), ls.last())
    }
}

/// Position of the last entry of `es` named `k`, or -1 when there is none.
pub open spec fn last_with_key(es: Seq<(Seq<char>, ServiceDataView)>, k: Seq<char>) -> int
    decreases es.len(),
{
    if es.len() == 0 {
        -1
    } else if es.last().0 == k {
        es.len() - 1
    } else {
        last_with_key(es.drop_last(), k)
    }
}

proof fn lemma_merge_list_lookup(t: TableView, es: Seq<(Seq<char>, ServiceDataView)>, k: Seq<char>)
    ensures
        -1 <= last_with_key(es, k) < es.len(),
        lookup(merge_list(t, es), k) == (if last_with_key(es, k) >= 0 {
            Some(fresh_service(es[last_with_key(es, k)].1))
        } else {
            lookup(t, k)
        }),
    decreases es.len(),
{
    if es.len() > 0 {
        let s = es.drop_last();
        lemma_merge_list_lookup(t, s, k);
        crate::table::lemma_lookup_insert(merge_list(t, s), es.last().0, fresh_service(es.last().1), k);
        if last_with_key(s, k) >= 0 {
            assert(es[last_with_key(s, k)] == s[last_with_key(s, k)]);
        }
    }
}

/// A later configuration file overrides the earlier ones: a service that
/// the last file names is as the last entry of that file for its name
/// describes it; any other service is as the earlier files left it.
pub proof fn lemma_later_file_wins(
    ls: Seq<Seq<(Seq<char>, ServiceDataView)>>,
    l: Seq<(Seq<char>, ServiceDataView)>,
    k: Seq<char>,
)
    ensures
        lookup(merged(ls.push(l)), k) == (if last_with_key(l, k) >= 0 {
            Some(fresh_service(l[last_with_key(l, k)].1))
        } else {
            lookup(merged(ls), k)
        }),
{
    assert(ls.push(l).drop_last() =~= ls);
    lemma_merge_list_lookup(merged(ls), l, k);
}

/// The model of a list of configuration files.
pub open spec fn lists_view(ls: Seq<ServicesList>) -> Seq<Seq<(Seq<char>, ServiceDataView)>> {
    ls.map_values(|l: ServicesList| l@)
}

/// Some service is active.
pub open spec fn any_active(t: TableView) -> bool {
    exists|i: int| 0 <= i < t.len() && (#[trigger] t[i]).1.state.spec_is_active()
}

/// The services with a process, with its id, in table order.
pub open spec fn processes_of(t: TableView) -> Seq<(Seq<char>, u32)>
    decreases t.len(),
{
    if t.len() == 0 {
        seq![]
    } else {
        let r = processes_of(t.drop_last());
        match t.last().1.pid {
            Some(p) => r.push((t.last().0, p)),
            None => r,
        }
    }
}

// ---------------------------------------------------------------------------
// Replies to control commands
// ---------------------------------------------------------------------------

/// What `{}` prints for a flag.
pub open spec fn bool_text(b: bool) -> Seq<char> {
    if b {
        "true"@
    } else {
        "false"@
    }
}

/// Why a service runs, as the status reply says it.
pub open spec fn reason_text(r: StartReason) -> Seq<char> {
    match r {
        StartReason::NotStarted => "(not active)"@,
        StartReason::Enabled => "Enabled"@,
        StartReason::AsDep => "AsDep"@,
        StartReason::OnDemand => "OnDemand"@,
    }
}

/// A process id, or `none` when there is no process.
pub open spec fn pid_text(p: Option<u32>, none: Seq<char>) -> Seq<char> {
    match p {
        Some(x) => decimal(x as nat),
        None => none,
    }
}

/// The heading of the process table.
pub open spec fn ps_header() -> Seq<char> {
    pad_right("SERVICE"@, 20) + " "@ + pad_right("PID"@, 10) + " "@ + pad_right("STATE"@, 10) + " "@
        + pad_right("DEPENDS"@, 15) + "\n"@
}

/// The line of the process table for service `s` named `k`.
pub open spec fn ps_row(k: Seq<char>, s: ServiceView) -> Seq<char> {
    pad_right(k, 20) + " "@ + pad_right(pid_text(s.pid, "-"@), 10) + " "@ + state_text(s.state) + " "@
        + pad_right(join(s.data.depends, ", "@), 15) + "\n"@
}

/// The lines of the process table: one for each active service, in table order.
pub open spec fn ps_rows(t: TableView) -> Seq<char>
    decreases t.len(),
{
    if t.len() == 0 {
        seq![]
    } else if t.last().1.state.spec_is_active() {
        ps_rows(t.drop_last()) + ps_row(t.last().0, t.last().1)
    } else {
        ps_rows(t.drop_last())
    }
}

/// The status report of service `s` named `n`; `rev` tells which services
/// require it.
pub open spec fn status_text(n: Seq<char>, s: ServiceView, rev: IndexView) -> Seq<char> {
    "Service "@ + n + "\nEnabled: "@ + bool_text(s.data.enabled) + "\nState: "@ + state_text(s.state)
        + "\nStarted because: "@ + reason_text(s.reasn) + "\nPId: "@ + pid_text(s.pid, "(unavailable)"@)
        + "\nDepends on: "@ + debug_list(s.data.depends) + "\nRequired for: "@ + debug_list(
        names_of(rev, n),
    ) + "\n"@
}

/// How the manager answers a command: with a text, by starting a service,
/// or with a text and a process to end.
pub enum ReplyView {
    Text(Seq<char>),
    Launch(ServiceView),
    Kill(Seq<char>, u32),
}

/// The state a service is put in when it is stopped: stopping while its
/// process is still to end, stopped when it has none.
pub open spec fn stop_state(s: ServiceView) -> ServiceState {
    if s.pid is Some {
        ServiceState::Stopping
    } else {
        ServiceState::Stopped
    }
}

/// The table once the manager handled `cmd`: a stop command puts an active
/// service into its stop state; nothing else changes the table.
pub open spec fn command_table(t: TableView, cmd: IpcCommand) -> TableView {
    match cmd {
        IpcCommand::Stop(n) => match lookup(t, n@) {
            Some(s) => if s.state.spec_is_active() {
                table_insert(t, n@, ServiceView { state: stop_state(s), ..s })
            } else {
                t
            },
            None => t,
        },
        _ => t,
    }
}

/// Stopping an active service puts it into its stop state and leaves every
/// other service as it was; once its process is seen to have ended, the
/// service is stopped and no longer active, and while the process still runs
/// it stays in its stop state.
pub proof fn lemma_stop_ends_service(t: TableView, n: String, k: Seq<char>, success: bool, code: Option<i32>)
    requires
        lookup(t, n@) is Some,
        lookup(t, n@).unwrap().state.spec_is_active(),
    ensures
        ({
            let s = lookup(t, n@).unwrap();
            let t1 = command_table(t, IpcCommand::Stop(n));
            &&& lookup(t1, n@) == Some(ServiceView { state: stop_state(s), ..s })
            &&& (stop_state(s) is Stopping || stop_state(s) is Stopped)
            &&& (k != n@ ==> lookup(t1, k) == lookup(t, k))
            &&& lookup(observed(t1, n@, ProcessStatus::Ended { success, code }), n@).unwrap().state
                == ServiceState::Stopped
            &&& !lookup(observed(t1, n@, ProcessStatus::Ended { success, code }), n@).unwrap().state.spec_is_active()
            &&& lookup(observed(t1, n@, ProcessStatus::Alive), n@).unwrap().state == stop_state(s)
        }),
{
    let s = lookup(t, n@).unwrap();
    let v = ServiceView { state: stop_state(s), ..s };
    crate::table::lemma_lookup_insert(t, n@, v, k);
    crate::table::lemma_lookup_insert(t, n@, v, n@);
    let t1 = command_table(t, IpcCommand::Stop(n));
    lemma_observation_changes_one(t1, n@, ProcessStatus::Ended { success, code }, n@);
    lemma_observation_changes_one(t1, n@, ProcessStatus::Alive, n@);
}

/// The commands the manager acts on; it answers any other with "Unknown command".
pub open spec fn handled(cmd: IpcCommand) -> bool {
    cmd is Ping || cmd is Start || cmd is Stop || cmd is Ps || cmd is Status || cmd is Pid || cmd is Shutdown
}

/// The answer to `cmd` in table `t` with reverse dependencies `rev`.
pub open spec fn reply_spec(t: TableView, rev: IndexView, cmd: IpcCommand) -> ReplyView {
    match cmd {
        IpcCommand::Ping => ReplyView::Text("Pong"@),
        IpcCommand::Start(n) => match lookup(t, n@) {
            None => ReplyView::Text("Unknown service name: "@ + n@),
            Some(s) => if s.state.spec_is_active() {
                ReplyView::Text(n@ + " is already active (state: "@ + state_text(s.state) + ")"@)
            } else {
                ReplyView::Launch(s)
            },
        },
        IpcCommand::Ps => ReplyView::Text(ps_header() + ps_rows(t)),
        IpcCommand::Status(n) => match lookup(t, n@) {
            None => ReplyView::Text("No such service "@ + n@),
            Some(s) => ReplyView::Text(status_text(n@, s, rev)),
        },
        IpcCommand::Pid(n) => match lookup(t, n@) {
            None => ReplyView::Text("No such service "@ + n@),
            Some(s) => if !s.state.spec_is_active() {
                ReplyView::Text("Service "@ + n@ + " is not up (it is "@ + state_text(s.state) + ")"@)
            } else {
                match s.pid {
                    Some(p) => ReplyView::Text(decimal(p as nat)),
                    None => ReplyView::Text("Internal error: pid of service is unknown."@),
                }
            },
        },
        IpcCommand::Stop(n) => match lookup(t, n@) {
            None => ReplyView::Text("No such service "@ + n@),
            Some(s) => if !s.state.spec_is_active() {
                ReplyView::Text("Service "@ + n@ + " is not up (it is "@ + state_text(s.state) + ")"@)
            } else {
                match s.pid {
                    Some(p) => ReplyView::Kill("Stopping "@ + n@ + "."@, p),
                    None => ReplyView::Text("Stopped "@ + n@ + "."@),
                }
            },
        },
        IpcCommand::Shutdown => ReplyView::Text("Shutting down."@),
        _ => ReplyView::Text("Unknown command"@),
    }
}

/// For a status command on a known service: each name of the two lists in
/// the report that is made of plain characters is printed between double
/// quotes and otherwise unchanged.
pub open spec fn status_plain_facts(t: TableView, rev: IndexView, cmd: IpcCommand) -> bool {
    match cmd {
        IpcCommand::Status(n) => lookup(t, n@) is Some ==> plain_items_quoted(
            lookup(t, n@).unwrap().data.depends,
        ) && plain_items_quoted(names_of(rev, n@)),
        _ => true,
    }
}

/// The answer once an on-demand start ended with `res`.
pub open spec fn start_reply_text(res: StartResult) -> Seq<char> {
    match res {
        StartResult::Success => "Success."@,
        StartResult::DepFault => "Unexpected Dependency fault!"@,
        StartResult::SpawnFault => "Spawn fault"@,
        StartResult::AlreadyActive => "Other error: AlreadyActive"@,
    }
}

/// The manager's answer to a command: ready; to be given once a start is
/// over; or ready once the process with this id is told to end.
#[derive(Debug)]
pub enum CommandReply {
    Ready(IpcCommand),
    Start(StartJob),
    Kill(IpcCommand, u32),
}

impl IpcCommand {
    /// Whether the manager acts on this command.
    pub fn is_handled(&self) -> (r: bool)
        ensures
            r == handled(*self),
    {
        match self {
            IpcCommand::Ping | IpcCommand::Start(_) | IpcCommand::Stop(_) | IpcCommand::Ps
            | IpcCommand::Status(_) | IpcCommand::Pid(_) | IpcCommand::Shutdown => true,
            _ => false,
        }
    }
}

// ---------------------------------------------------------------------------
// The manager
// ---------------------------------------------------------------------------

/// The services with their run-time state and their dependency graph.
#[derive(Debug)]
pub struct ServiceManager {
    services: NameMap<Service>,
    deps: DepGraph,
    shutdown: bool,
}

impl ServiceManager {
    /// The services, by name, in table order.
    pub closed spec fn table(&self) -> TableView {
        self.services@
    }

    /// For each service, the services it depends on.
    pub closed spec fn direct(&self) -> IndexView {
        self.deps.direct@
    }

    /// For each name, the services that depend on it.
    pub closed spec fn reverse(&self) -> IndexView {
        self.deps.reverse@
    }

    /// A shutdown was asked for.
    pub closed spec fn shutting_down(&self) -> bool {
        self.shutdown
    }

    /// No two services share a name.
    pub closed spec fn inv(&self) -> bool {
        keys_distinct(self.services@)
    }

    /// The invariant of a manager is that no two services share a name.
    pub proof fn lemma_inv_keys_distinct(&self)
        requires
            self.inv(),
        ensures
            keys_distinct(self.table()),
    {
    }

    /// A manager with no services.
    pub fn new() -> (m: ServiceManager)
        ensures
            m.inv(),
            m.table() == TableView::empty(),
            m.direct() == IndexView::empty(),
            m.reverse() == IndexView::empty(),
            !m.shutting_down(),
    {
        ServiceManager { services: NameMap::new(), deps: DepGraph::new(), shutdown: false }
    }

    /// Loads the services of the configuration files `lists`, in order, and
    /// derives their dependency graph.
    pub fn setup_from_lists(&mut self, lists: &Vec<ServicesList>)
        ensures
            final(self).inv(),
            final(self).table() == merged(lists_view(lists@)),
            final(self).shutting_down() == old(self).shutting_down(),
            final(self).direct() == direct_index(final(self).table()),
            final(self).reverse() == reverse_index(final(self).table()),
    {
        let mut all: NameMap<Service> = NameMap::new();
        let ghost ls = lists_view(lists@);
        let mut i: usize = 0;
        while i < lists.len()
            invariant
                ls == lists_view(lists@),
                i <= lists.len(),
                all@ == merged(ls.take(i as int)),
                keys_distinct(all@),
            decreases lists.len() - i,
        {
            let list = &lists[i].services;
            let ghost es = lists[i as int]@;
            let ghost start = all@;
            let mut j: usize = 0;
            while j < list.len()
                invariant
                    es == lists[i as int]@,
                    list@ == lists[i as int].services@,
                    j <= list.len(),
                    all@ == merge_list(start, es.take(j as int)),
                    keys_distinct(all@),
                decreases list.len() - j,
            {
                let key = list[j].0.clone();
                let srvc = list[j].1.duplicate().to_service();
                all.insert(key, srvc);
                proof {
                    assert(es.take((j + 1) as int).drop_last() =~= es.take(j as int));
                    assert(es[j as int] == (list@[j as int].0@, list@[j as int].1@));
                    assert(srvc@ == fresh_service(es[j as int].1));
                }
                j = j + 1;
            }
            proof {
                assert(es.take(es.len() as int) =~= es);
                assert(ls.take((i + 1) as int).drop_last() =~= ls.take(i as int));
                assert(ls[i as int] == es);
            }
            i = i + 1;
        }
        proof {
            assert(ls.take(ls.len() as int) =~= ls);
        }
        self.deps = DepGraph::from_services(&all);
        self.services = all;
    }

    /// Number of services.
    pub fn len(&self) -> (n: usize)
        ensures
            n == self.table().len(),
    {
        self.services.len()
    }

    /// The name of service `i`.
    pub fn name_at(&self, i: usize) -> (k: &String)
        requires
            i < self.table().len(),
        ensures
            k@ == self.table()[i as int].0,
    {
        self.services.key_at(i)
    }

    /// Service `i`.
    pub fn service_at(&self, i: usize) -> (s: &Service)
        requires
            i < self.table().len(),
        ensures
            s@ == self.table()[i as int].1,
    {
        self.services.value_at(i)
    }

    /// The service named `name`, if any.
    pub fn get(&self, name: &String) -> (r: Option<&Service>)
        ensures
            r is Some <==> lookup(self.table(), name@) is Some,
            r matches Some(s) ==> lookup(self.table(), name@) == Some(s@),
    {
        self.services.get(name)
    }

    /// Whether some service is active.
    pub fn any_active(&self) -> (r: bool)
        ensures
            r == any_active(self.table()),
    {
        let mut i: usize = 0;
        while i < self.services.len()
            invariant
                i <= self.table().len(),
                forall|j: int| 0 <= j < i ==> !(#[trigger] self.table()[j]).1.state.spec_is_active(),
            decreases self.table().len() - i,
        {
            if self.services.value_at(i).state.is_active() {
                return true;
            }
            i = i + 1;
        }
        false
    }

    /// The services that have a process, with its id.
    pub fn processes(&self) -> (r: Vec<(String, u32)>)
        ensures
            r@.map_values(|e: (String, u32)| (e.0@, e.1)) == processes_of(self.table()),
    {
        let ghost t = self.table();
        let mut r: Vec<(String, u32)> = Vec::new();
        let mut i: usize = 0;
        while i < self.services.len()
            invariant
                t == self.table(),
                i <= t.len(),
                r@.map_values(|e: (String, u32)| (e.0@, e.1)) =~= processes_of(t.take(i as int)),
            decreases t.len() - i,
        {
            let ghost r0 = r@.map_values(|e: (String, u32)| (e.0@, e.1));
            let s = self.services.value_at(i);
            proof {
                assert(t.take((i + 1) as int).drop_last() =~= t.take(i as int));
            }
            if let Some(p) = s.pid {
                r.push((self.services.key_at(i).clone(), p));
                assert(r@.map_values(|e: (String, u32)| (e.0@, e.1)) =~= r0.push((t[i as int].0, p)));
            }
            i = i + 1;
        }
        proof {
            assert(t.take(t.len() as int) =~= t);
        }
        r
    }

    /// Records what the process of service `name` was found doing.
    pub fn record_status(&mut self, name: &String, status: ProcessStatus)
        requires
            old(self).inv(),
        ensures
            final(self).inv(),
            final(self).direct() == old(self).direct(),
            final(self).reverse() == old(self).reverse(),
            final(self).table() == observed(old(self).table(), name@, status),
            final(self).shutting_down() == old(self).shutting_down(),
    {
        match self.services.get(name) {
            Some(s) => {
                let mut c = s.duplicate();
                c.state = match (c.state, status) {
                    (ServiceState::Stopping, ProcessStatus::Alive) => ServiceState::Stopping,
                    (ServiceState::Stopping, ProcessStatus::Ended { .. }) => ServiceState::Stopped,
                    (ServiceState::Stopped, _) => ServiceState::Stopped,
                    (_, ProcessStatus::Alive) => ServiceState::Running,
                    (_, ProcessStatus::Ended { success, code }) => if success {
                        ServiceState::Exited
                    } else {
                        ServiceState::Failed(code)
                    },
                };
                self.services.insert(name.clone(), c);
            },
            None => {},
        }
    }

    /// One transition of the start `job`, given the outcome of the spawn it
    /// requested, if any.
    pub fn step_start(&mut self, job: &mut StartJob, event: Option<SpawnOutcome>) -> (r: StartStep)
        requires
            old(self).inv(),
            old(job).wf(),
        ensures
            final(self).inv(),
            final(job).wf(),
            final(self).direct() == old(self).direct(),
            final(self).reverse() == old(self).reverse(),
            (final(self).table(), final(job)@, r@) == step_spec(old(self).table(), old(job)@, event),
            final(self).shutting_down() == old(self).shutting_down(),
    {
        step(&mut self.services, job, event)
    }

    /// One transition of start-up, given the outcome of the spawn it
    /// requested, if any.
    pub fn step_startup(&mut self, run: &mut StartupRun, event: Option<SpawnOutcome>) -> (r: StartupStep)
        requires
            old(self).inv(),
            old(run).wf(),
        ensures
            final(self).inv(),
            final(run).wf(),
            final(self).direct() == old(self).direct(),
            final(self).reverse() == old(self).reverse(),
            (final(self).table(), final(run)@, r@) == startup_step_spec(old(self).table(), old(run)@, event),
            final(self).shutting_down() == old(self).shutting_down(),
    {
        step_startup(&mut self.services, run, event)
    }
    /// The line of the process table for service `s` named `name`.
    fn ps_row_text(name: &String, s: &Service) -> (r: String)
        ensures
            r@ == ps_row(name@, s@),
    {
        let mut r = String::new();
        push_padded(&mut r, name.as_str(), 20);
        r.append(" ");
        let pid = match s.pid {
            Some(p) => u32_text(p),
            None => String::from_str("-"),
        };
        push_padded(&mut r, pid.as_str(), 10);
        r.append(" ");
        let st = s.state.to_string();
        r.append(st.as_str());
        r.append(" ");
        let deps = join_strings(&s.data.depends, ", ");
        push_padded(&mut r, deps.as_str(), 15);
        r.append("\n");
        r
    }

    /// The process table: a heading, then one line per active service.
    fn ps_text(&self) -> (r: String)
        ensures
            r@ == ps_header() + ps_rows(self.table()),
    {
        let ghost t = self.table();
        let mut r = String::new();
        push_padded(&mut r, "SERVICE", 20);
        r.append(" ");
        push_padded(&mut r, "PID", 10);
        r.append(" ");
        push_padded(&mut r, "STATE", 10);
        r.append(" ");
        push_padded(&mut r, "DEPENDS", 15);
        r.append("\n");
        let mut i: usize = 0;
        while i < self.services.len()
            invariant
                t == self.table(),
                i <= t.len(),
                r@ =~= ps_header() + ps_rows(t.take(i as int)),
            decreases t.len() - i,
        {
            let s = self.services.value_at(i);
            proof {
                assert(t.take((i + 1) as int).drop_last() =~= t.take(i as int));
            }
            if s.state.is_active() {
                let row = Self::ps_row_text(self.services.key_at(i), s);
                r.append(row.as_str());
            }
            i = i + 1;
        }
        proof {
            assert(t.take(t.len() as int) =~= t);
        }
        r
    }

    /// The status report of service `s` named `name`.
    fn status_report(&self, name: &String, s: &Service) -> (r: String)
        ensures
            r@ == status_text(name@, s@, self.reverse()),
            plain_items_quoted(s@.data.depends),
            plain_items_quoted(names_of(self.reverse(), name@)),
    {
        let mut r = String::from_str("Service ");
        r.append(name.as_str());
        r.append("\nEnabled: ");
        r.append(if s.data.enabled { "true" } else { "false" });
        r.append("\nState: ");
        let st = s.state.to_string();
        r.append(st.as_str());
        r.append("\nStarted because: ");
        r.append(
            match s.reasn {
                StartReason::NotStarted => "(not active)",
                StartReason::Enabled => "Enabled",
                StartReason::AsDep => "AsDep",
                StartReason::OnDemand => "OnDemand",
            },
        );
        r.append("\nPId: ");
        let pid = match s.pid {
            Some(p) => u32_text(p),
            None => String::from_str("(unavailable)"),
        };
        r.append(pid.as_str());
        r.append("\nDepends on: ");
        let deps = debug_list_text(&s.data.depends);
        r.append(deps.as_str());
        r.append("\nRequired for: ");
        let required = match self.deps.reverse.get(name) {
            Some(v) => debug_list_text(v),
            None => {
                let none: Vec<String> = Vec::new();
                assert(none.deep_view() =~= names_of(self.reverse(), name@));
                debug_list_text(&none)
            },
        };
        r.append(required.as_str());
        r.append("\n");
        r
    }

    /// The answer to a control command. Every command is answered at once
    /// but the start of a service that is not active, which is handed back
    /// as a start to run; `finish_start_command` then gives the answer.
    fn answer_query(&self, command: &IpcCommand) -> (r: CommandReply)
        requires
            !(command is Stop),
            !(command is Shutdown),
        ensures
            status_plain_facts(self.table(), self.reverse(), *command),
            match (r, reply_spec(self.table(), self.reverse(), *command)) {
                (CommandReply::Ready(IpcCommand::Response(text)), ReplyView::Text(expected)) => text@
                    == expected,
                (CommandReply::Start(job), ReplyView::Launch(s)) => job@ == begin_spec(
                    s,
                    StartReason::OnDemand,
                ) && job.wf(),
                _ => false,
            },
    {
        match command {
            IpcCommand::Ping => CommandReply::Ready(IpcCommand::Response(String::from_str("Pong"))),
            IpcCommand::Start(name) => match self.services.get(name) {
                None => {
                    let mut r = String::from_str("Unknown service name: ");
                    r.append(name.as_str());
                    CommandReply::Ready(IpcCommand::Response(r))
                },
                Some(s) => {
                    if s.state.is_active() {
                        let mut r = name.clone();
                        r.append(" is already active (state: ");
                        let st = s.state.to_string();
                        r.append(st.as_str());
                        r.append(")");
                        CommandReply::Ready(IpcCommand::Response(r))
                    } else {
                        CommandReply::Start(StartJob::begin(s.duplicate(), StartReason::OnDemand))
                    }
                },
            },
            IpcCommand::Ps => CommandReply::Ready(IpcCommand::Response(self.ps_text())),
            IpcCommand::Status(name) => match self.services.get(name) {
                None => {
                    let mut r = String::from_str("No such service ");
                    r.append(name.as_str());
                    CommandReply::Ready(IpcCommand::Response(r))
                },
                Some(s) => CommandReply::Ready(IpcCommand::Response(self.status_report(name, s))),
            },
            IpcCommand::Pid(name) => match self.services.get(name) {
                None => {
                    let mut r = String::from_str("No such service ");
                    r.append(name.as_str());
                    CommandReply::Ready(IpcCommand::Response(r))
                },
                Some(s) => {
                    if !s.state.is_active() {
                        let mut r = String::from_str("Service ");
                        r.append(name.as_str());
                        r.append(" is not up (it is ");
                        let st = s.state.to_string();
                        r.append(st.as_str());
                        r.append(")");
                        CommandReply::Ready(IpcCommand::Response(r))
                    } else {
                        match s.pid {
                            Some(p) => CommandReply::Ready(IpcCommand::Response(u32_text(p))),
                            None => CommandReply::Ready(
                                IpcCommand::Response(
                                    String::from_str("Internal error: pid of service is unknown."),
                                ),
                            ),
                        }
                    }
                },
            },
            _ => CommandReply::Ready(IpcCommand::Response(String::from_str("Unknown command"))),
        }
    }

    /// Handles a control command. A stop command puts an active service into
    /// its stop state and, when it has a process, hands its id back to be
    /// ended; a shutdown command makes the manager stop watching. The start
    /// of a service that is not active is handed back as a start to run;
    /// `finish_start_command` then gives the answer. Every other command is
    /// answered at once and changes nothing.
    pub fn process_command(&mut self, command: &IpcCommand) -> (r: CommandReply)
        requires
            old(self).inv(),
        ensures
            final(self).inv(),
            final(self).direct() == old(self).direct(),
            final(self).reverse() == old(self).reverse(),
            final(self).table() == command_table(old(self).table(), *command),
            final(self).shutting_down() == (old(self).shutting_down() || command is Shutdown),
            status_plain_facts(old(self).table(), old(self).reverse(), *command),
            match (r, reply_spec(old(self).table(), old(self).reverse(), *command)) {
                (CommandReply::Ready(IpcCommand::Response(text)), ReplyView::Text(expected)) => text@
                    == expected,
                (CommandReply::Start(job), ReplyView::Launch(s)) => job@ == begin_spec(
                    s,
                    StartReason::OnDemand,
                ) && job.wf(),
                (CommandReply::Kill(IpcCommand::Response(text), pid), ReplyView::Kill(expected, p)) => text@
                    == expected && pid == p,
                _ => false,
            },
    {
        match command {
            IpcCommand::Shutdown => {
                self.shutdown = true;
                CommandReply::Ready(IpcCommand::Response(String::from_str("Shutting down.")))
            },
            IpcCommand::Stop(name) => {
                match self.services.get(name) {
                    None => {
                        let mut r = String::from_str("No such service ");
                        r.append(name.as_str());
                        CommandReply::Ready(IpcCommand::Response(r))
                    },
                    Some(s) => {
                        if !s.state.is_active() {
                            let mut r = String::from_str("Service ");
                            r.append(name.as_str());
                            r.append(" is not up (it is ");
                            let st = s.state.to_string();
                            r.append(st.as_str());
                            r.append(")");
                            CommandReply::Ready(IpcCommand::Response(r))
                        } else {
                            let mut c = s.duplicate();
                            let pid = c.pid;
                            c.state = if pid.is_some() {
                                ServiceState::Stopping
                            } else {
                                ServiceState::Stopped
                            };
                            self.services.insert(name.clone(), c);
                            match pid {
                                Some(p) => {
                                    let mut r = String::from_str("Stopping ");
                                    r.append(name.as_str());
                                    r.append(".");
                                    CommandReply::Kill(IpcCommand::Response(r), p)
                                },
                                None => {
                                    let mut r = String::from_str("Stopped ");
                                    r.append(name.as_str());
                                    r.append(".");
                                    CommandReply::Ready(IpcCommand::Response(r))
                                },
                            }
                        }
                    },
                }
            },
            _ => self.answer_query(command),
        }
    }

    /// Whether the manager keeps watching its services: some service is
    /// active and no shutdown was asked for.
    pub fn keep_watching(&self) -> (r: bool)
        ensures
            r == (any_active(self.table()) && !self.shutting_down()),
    {
        !self.shutdown && self.any_active()
    }

    /// The answer to a start command whose start, `job`, is over. When the
    /// service started it is written back under the name in the command.
    pub fn finish_start_command(&mut self, name: &String, job: &StartJob) -> (r: IpcCommand)
        requires
            old(self).inv(),
            job@.last is Some,
        ensures
            final(self).inv(),
            final(self).direct() == old(self).direct(),
            final(self).reverse() == old(self).reverse(),
            r matches IpcCommand::Response(text) && text@ == start_reply_text(job@.last.unwrap().1),
            final(self).shutting_down() == old(self).shutting_down(),
            final(self).table() == (if job@.last.unwrap().1 == StartResult::Success {
                table_insert(old(self).table(), name@, job@.last.unwrap().0)
            } else {
                old(self).table()
            }),
    {
        let (s, res) = job.outcome().unwrap();
        match res {
            StartResult::Success => {
                self.services.insert(name.clone(), s.duplicate());
                IpcCommand::Response(String::from_str("Success."))
            },
            StartResult::DepFault => IpcCommand::Response(String::from_str("Unexpected Dependency fault!")),
            StartResult::SpawnFault => IpcCommand::Response(String::from_str("Spawn fault")),
            StartResult::AlreadyActive => IpcCommand::Response(String::from_str("Other error: AlreadyActive")),
        }
    }
}

} // verus!

verus! {

// ---------------------------------------------------------------------------
// Laws of observations, the start command, the status report and the
// process table
// ---------------------------------------------------------------------------

/// For a service that is not being stopped, what an observation of its
/// process makes of it depends on the observation alone, not on the state
/// the service was in: a live process makes it running, a process that
/// ended with success makes it exited, and one that ended otherwise makes it
/// failed with the exit code. It is active afterwards exactly when its
/// process is alive.
pub proof fn lemma_observation_outcome(c1: ServiceState, c2: ServiceState, st: ProcessStatus)
    requires
        !(c1 is Stopping || c1 is Stopped),
        !(c2 is Stopping || c2 is Stopped),
    ensures
        observed_state(c1, st) == observed_state(c2, st),
        st is Alive ==> observed_state(c1, st) == ServiceState::Running,
        st matches ProcessStatus::Ended { success, code } ==> observed_state(c1, st) == (if success {
            ServiceState::Exited
        } else {
            ServiceState::Failed(code)
        }),
        observed_state(c1, st).spec_is_active() <==> st is Alive,
{
}

/// Recording that the process of service `n`, which is not being stopped,
/// ended leaves it exited after a success and failed with the exit code
/// otherwise, with everything else about it unchanged.
pub proof fn lemma_record_ended(t: TableView, n: Seq<char>, success: bool, code: Option<i32>)
    requires
        lookup(t, n) is Some,
        !(lookup(t, n).unwrap().state is Stopping || lookup(t, n).unwrap().state is Stopped),
    ensures
        lookup(observed(t, n, ProcessStatus::Ended { success, code }), n) == Some(
            ServiceView {
                state: if success {
                    ServiceState::Exited
                } else {
                    ServiceState::Failed(code)
                },
                ..lookup(t, n).unwrap()
            },
        ),
{
    lemma_observation_changes_one(t, n, ProcessStatus::Ended { success, code }, n);
}

/// A start command for a known service launches a start of that very
/// service exactly when it is not up (neither starting, running nor
/// stopping), whatever else it is: not processed, pending, stopped, exited,
/// failed or failed to spawn. Only a service that is up is answered with a
/// text.
pub proof fn lemma_start_command_launches(t: TableView, rev: IndexView, n: String)
    requires
        lookup(t, n@) is Some,
    ensures
        ({
            let s = lookup(t, n@).unwrap();
            let up = s.state is Starting || s.state is Running || s.state is Stopping;
            &&& (reply_spec(t, rev, IpcCommand::Start(n)) is Launch) <==> !up
            &&& reply_spec(t, rev, IpcCommand::Start(n)) matches ReplyView::Launch(x) ==> x == s
            &&& up ==> reply_spec(t, rev, IpcCommand::Start(n)) is Text
        }),
{
}

/// The reasons a service runs are told apart in the status report: no two
/// reasons are shown alike, only a service never started shows
/// "(not active)", and each other reason is shown by its name.
pub proof fn lemma_reason_text_distinct(r1: StartReason, r2: StartReason)
    ensures
        reason_text(r1) == reason_text(r2) ==> r1 == r2,
        (reason_text(r1) == "(not active)"@) <==> r1 is NotStarted,
        r1 is Enabled ==> reason_text(r1) == "Enabled"@,
        r1 is AsDep ==> reason_text(r1) == "AsDep"@,
        r1 is OnDemand ==> reason_text(r1) == "OnDemand"@,
{
    reveal_strlit("(not active)");
    reveal_strlit("Enabled");
    reveal_strlit("AsDep");
    reveal_strlit("OnDemand");
    assert("(not active)"@.len() == 12 && "Enabled"@.len() == 7 && "AsDep"@.len() == 5 && "OnDemand"@.len() == 8);
    if reason_text(r1) == reason_text(r2) {
        assert(reason_text(r1).len() == reason_text(r2).len());
    }
    if reason_text(r1) == "(not active)"@ {
        assert(reason_text(r1).len() == 12);
    }
}

/// Two services that differ only in why they were started get different
/// status reports.
pub proof fn lemma_status_tells_reasons(n: Seq<char>, s: ServiceView, r: StartReason, rev: IndexView)
    requires
        r != s.reasn,
    ensures
        status_text(n, s, rev) != status_text(n, ServiceView { reasn: r, ..s }, rev),
{
    reveal_strlit("(not active)");
    reveal_strlit("Enabled");
    reveal_strlit("AsDep");
    reveal_strlit("OnDemand");
    let s2 = ServiceView { reasn: r, ..s };
    assert(reason_text(r).len() != reason_text(s.reasn).len());
    assert(status_text(n, s, rev).len() != status_text(n, s2, rev).len());
}

/// In the process table, the column after a service's name (and one space)
/// starts with its process id in decimal whenever it has one, whatever its
/// state, and with "-" only when it has none.
pub proof fn lemma_ps_pid_column(k: Seq<char>, s: ServiceView)
    ensures
        ({
            let at = pad_right(k, 20).len() + 1;
            &&& s.pid matches Some(p) ==> ps_row(k, s).subrange(at as int, (at + decimal(p as nat).len()) as int) == decimal(
                p as nat,
            )
            &&& s.pid is None ==> ps_row(k, s)[at as int] == '-'
        }),
{
    reveal_strlit(" ");
    reveal_strlit("-");
    let at = pad_right(k, 20).len() + 1;
    let col = pad_right(pid_text(s.pid, "-"@), 10);
    let rest = " "@ + state_text(s.state) + " "@ + pad_right(join(s.data.depends, ", "@), 15) + "\n"@;
    let row = ps_row(k, s);
    assert(row =~= (pad_right(k, 20) + " "@) + col + rest);
    let d = pid_text(s.pid, "-"@);
    assert(col.subrange(0, d.len() as int) =~= d);
    assert(forall|i: int| 0 <= i < d.len() ==> row[at + i] == col[i]);
    if s.pid is Some {
        assert(row.subrange(at as int, (at + d.len()) as int) =~= d);
    } else {
        assert(d[0] == '-');
    }
}

} // verus!
