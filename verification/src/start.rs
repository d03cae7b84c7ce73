//! Starting a service together with the services it depends on.
//!
//! Starting is a walk over the dependency graph, depth first, in which each
//! service that can be launched is handed to the caller for spawning. The
//! walk is a state machine: `StartJob` is its state, `step` one transition,
//! and the caller performs each requested spawn and reports how it went.
use vstd::prelude::*;

use crate::deps::TableView;
use crate::service::{Service, ServiceState, ServiceView, StartReason, StartResult};
use crate::table::{
    index_of, keys_distinct, lemma_index_of, lemma_index_of_same_keys, lemma_lookup_insert, lemma_push_absent, lookup,
    table_insert, NameMap,
};
use crate::text::{split_words, words};

verus! {

/// How a requested spawn went.
#[derive(Debug, Clone, Copy, PartialEq, Eq, Structural)]
pub enum SpawnOutcome {
    /// The process was spawned and has this id.
    Spawned(u32),
    /// The process could not be spawned.
    Failed,
}

/// A process to spawn: a program and its arguments.
#[derive(Debug, Clone)]
pub struct SpawnRequest {
    pub program: String,
    pub args: Vec<String>,
}

/// Something worth telling about a start under way.
#[derive(Debug, Clone)]
pub enum StartNotice {
    /// `service` depends on `dependency`, which is not in the table.
    UnknownDependency { service: String, dependency: String },
    /// The start of `dependency`, which `required_by` needs, ended with `result`.
    DependencyStarted { dependency: String, required_by: String, result: StartResult },
}

/// The model of `StartNotice`.
pub enum NoticeView {
    UnknownDependency(Seq<char>, Seq<char>),
    DependencyStarted(Seq<char>, Seq<char>, StartResult),
}

impl View for StartNotice {
    type V = NoticeView;

    open spec fn view(&self) -> NoticeView {
        match self {
            StartNotice::UnknownDependency { service, dependency } => NoticeView::UnknownDependency(
                service@,
                dependency@,
            ),
            StartNotice::DependencyStarted { dependency, required_by, result } =>
                NoticeView::DependencyStarted(dependency@, required_by@, *result),
        }
    }
}

/// What the caller has to do after a transition.
#[derive(Debug, Clone)]
pub enum StartStep {
    /// Nothing; call `step` again.
    Continue,
    /// Nothing but to take note of this; call `step` again.
    Notice(StartNotice),
    /// Spawn this process and report the outcome to the next `step`.
    Spawn(SpawnRequest),
    /// The start is over, with this result.
    Done(StartResult),
}

/// The model of `StartStep`.
pub enum StepView {
    Continue,
    Notice(NoticeView),
    Spawn(Seq<char>, Seq<Seq<char>>),
    Done(StartResult),
}

impl View for StartStep {
    type V = StepView;

    open spec fn view(&self) -> StepView {
        match self {
            StartStep::Continue => StepView::Continue,
            StartStep::Notice(n) => StepView::Notice(n@),
            StartStep::Spawn(r) => StepView::Spawn(r.program@, r.args.deep_view()),
            StartStep::Done(res) => StepView::Done(*res),
        }
    }
}

/// One service whose start is under way.
#[derive(Debug, Clone)]
struct Frame {
    /// The service, as it will be written back.
    srvc: Service,
    reason: StartReason,
    /// Index of the next dependency to look at.
    next: usize,
    /// No dependency has failed so far.
    ok: bool,
    /// Its process was requested and the outcome is awaited.
    waiting: bool,
}

/// The model of a frame.
pub struct FrameView {
    pub srvc: ServiceView,
    pub reason: StartReason,
    pub next: nat,
    pub ok: bool,
    pub waiting: bool,
}

/// The state of a start: the services under way, innermost last, and, once
/// the start is over, the service as it ended and the result.
#[derive(Debug, Clone)]
pub struct StartJob {
    frames: Vec<Frame>,
    last: Option<(Service, StartResult)>,
}

/// The model of a start.
pub struct JobView {
    pub frames: Seq<FrameView>,
    pub last: Option<(ServiceView, StartResult)>,
}

impl View for StartJob {
    type V = JobView;

    closed spec fn view(&self) -> JobView {
        JobView {
            frames: self.frames@.map_values(
                |f: Frame|
                    FrameView {
                        srvc: f.srvc@,
                        reason: f.reason,
                        next: f.next as nat,
                        ok: f.ok,
                        waiting: f.waiting,
                    },
            ),
            last: match self.last {
                Some((s, r)) => Some((s@, r)),
                None => None,
            },
        }
    }
}

// ---------------------------------------------------------------------------
// The transition relation
// ---------------------------------------------------------------------------

/// The dependencies of the service of a frame.
pub open spec fn deps_of(f: FrameView) -> Seq<Seq<char>> {
    f.srvc.data.depends
}

/// A start is well formed: it is over exactly when no service is under way;
/// every service under way has not looked past its dependencies, waits only
/// once all are looked at and none failed, and every service but the
/// innermost waits for the start of one of its dependencies.
pub open spec fn job_wf(j: JobView) -> bool {
    &&& (j.frames.len() == 0 <==> j.last is Some)
    &&& forall|i: int|
        0 <= i < j.frames.len() ==> {
            &&& #[trigger] j.frames[i].next <= deps_of(j.frames[i]).len()
            &&& j.frames[i].waiting ==> j.frames[i].next == deps_of(j.frames[i]).len()
                && j.frames[i].ok && words(j.frames[i].srvc.data.command).len() > 0
        }
    &&& forall|i: int|
        0 <= i < j.frames.len() - 1 ==> #[trigger] j.frames[i].next < deps_of(j.frames[i]).len()
            && !j.frames[i].waiting
}

/// A fresh frame for starting `s`.
pub open spec fn new_frame(s: ServiceView, reason: StartReason) -> FrameView {
    FrameView { srvc: s, reason, next: 0, ok: true, waiting: false }
}

/// The start of `s` for `reason`: over at once, with `AlreadyActive`, when `s`
/// is active or pending.
pub open spec fn begin_spec(s: ServiceView, reason: StartReason) -> JobView {
    if s.state.spec_is_active() || s.state is Pending {
        JobView { frames: seq![], last: Some((s, StartResult::AlreadyActive)) }
    } else {
        JobView { frames: seq![new_frame(s, reason)], last: None }
    }
}

/// `s` as it stands once it has started.
pub open spec fn started(s: ServiceView, reason: StartReason, pid: Option<u32>) -> ServiceView {
    ServiceView { data: s.data, state: ServiceState::Starting, pid, reasn: reason }
}

/// The request to spawn the command line `command`.
pub open spec fn spawn_of(command: Seq<char>) -> StepView {
    StepView::Spawn(words(command)[0], words(command).drop_first())
}

/// The innermost frame ends, leaving the frames `rest`: its service is `s`
/// and the result `res`. The start is over when no frame is left; otherwise
/// the frame that waited for it writes `s` back when `s` is active, notes a
/// failure when not, and moves on to its next dependency.
pub open spec fn finish_frame(t: TableView, rest: Seq<FrameView>, s: ServiceView, res: StartResult) -> (
    TableView,
    JobView,
    StepView,
) {
    if rest.len() == 0 {
        (t, JobView { frames: rest, last: Some((s, res)) }, StepView::Done(res))
    } else {
        let p = rest.last();
        if s.state.spec_is_active() {
            (
                table_insert(t, s.data.name, s),
                JobView {
                    frames: rest.update(rest.len() - 1, FrameView { next: p.next + 1, ..p }),
                    last: None,
                },
                StepView::Notice(NoticeView::DependencyStarted(s.data.name, p.srvc.data.name, res)),
            )
        } else {
            (
                t,
                JobView {
                    frames: rest.update(rest.len() - 1, FrameView { next: p.next + 1, ok: false, ..p }),
                    last: None,
                },
                StepView::Notice(NoticeView::DependencyStarted(s.data.name, p.srvc.data.name, res)),
            )
        }
    }
}

/// The job with its innermost frame replaced.
pub open spec fn with_top(j: JobView, f: FrameView) -> JobView {
    JobView { frames: j.frames.update(j.frames.len() - 1, f), last: j.last }
}

/// One transition of a start in table `t`, given the outcome of the
/// requested spawn, if one was requested: the new table, the new start and
/// what the caller has to do.
pub open spec fn step_spec(t: TableView, j: JobView, event: Option<SpawnOutcome>) -> (
    TableView,
    JobView,
    StepView,
) {
    if j.frames.len() == 0 {
        (t, j, StepView::Done(j.last.unwrap().1))
    } else {
        let f = j.frames.last();
        if f.waiting {
            match event {
                None => (t, j, spawn_of(f.srvc.data.command)),
                Some(SpawnOutcome::Spawned(pid)) => {
                    let s = started(f.srvc, f.reason, Some(pid));
                    finish_frame(table_insert(t, s.data.name, s), j.frames.drop_last(), s, StartResult::Success)
                },
                Some(SpawnOutcome::Failed) => {
                    let s = ServiceView { state: ServiceState::SpawnFailure, ..f.srvc };
                    finish_frame(t, j.frames.drop_last(), s, StartResult::SpawnFault)
                },
            }
        } else if f.next < deps_of(f).len() {
            match lookup(t, deps_of(f)[f.next as int]) {
                None => (
                    t,
                    with_top(j, FrameView { next: deps_of(f).len(), ok: false, ..f }),
                    StepView::Notice(NoticeView::UnknownDependency(f.srvc.data.name, deps_of(f)[f.next as int])),
                ),
                Some(dep) => if dep.state.spec_is_active() {
                    (
                        table_insert(t, dep.data.name, dep),
                        with_top(j, FrameView { next: f.next + 1, ..f }),
                        StepView::Continue,
                    )
                } else if dep.state is Pending {
                    (
                        t,
                        with_top(j, FrameView { next: f.next + 1, ok: false, ..f }),
                        StepView::Notice(
                            NoticeView::DependencyStarted(dep.data.name, f.srvc.data.name, StartResult::AlreadyActive),
                        ),
                    )
                } else {
                    (
                        t,
                        JobView { frames: j.frames.push(new_frame(dep, StartReason::AsDep)), last: None },
                        StepView::Continue,
                    )
                },
            }
        } else if !f.ok {
            finish_frame(t, j.frames.drop_last(), f.srvc, StartResult::DepFault)
        } else if words(f.srvc.data.command).len() > 0 {
            (t, with_top(j, FrameView { waiting: true, ..f }), spawn_of(f.srvc.data.command))
        } else {
            let s = started(f.srvc, f.reason, f.srvc.pid);
            finish_frame(table_insert(t, s.data.name, s), j.frames.drop_last(), s, StartResult::Success)
        }
    }
}

/// Frames that each wait for the start of one of their dependencies.
pub open spec fn outer_frames(fs: Seq<FrameView>) -> bool {
    forall|i: int| 0 <= i < fs.len() ==> #[trigger] fs[i].next < deps_of(fs[i]).len() && !fs[i].waiting
}

proof fn lemma_with_top_wf(j: JobView, f: FrameView)
    requires
        job_wf(j),
        j.frames.len() > 0,
        f.next <= deps_of(f).len(),
        f.waiting ==> f.next == deps_of(f).len() && f.ok && words(f.srvc.data.command).len() > 0,
    ensures
        job_wf(with_top(j, f)),
{
    let k = with_top(j, f);
    assert forall|i: int| 0 <= i < k.frames.len() - 1 implies #[trigger] k.frames[i].next < deps_of(k.frames[i]).len()
        && !k.frames[i].waiting by {
        assert(k.frames[i] == j.frames[i]);
        assert(j.frames[i].next < deps_of(j.frames[i]).len());
    }
    assert forall|i: int| 0 <= i < k.frames.len() implies #[trigger] k.frames[i].next <= deps_of(k.frames[i]).len()
        && (k.frames[i].waiting ==> k.frames[i].next == deps_of(k.frames[i]).len() && k.frames[i].ok
            && words(k.frames[i].srvc.data.command).len() > 0) by {
        if i < k.frames.len() - 1 {
            assert(k.frames[i] == j.frames[i]);
            assert(j.frames[i].next <= deps_of(j.frames[i]).len());
        }
    }
}

proof fn lemma_push_wf(j: JobView, s: ServiceView, reason: StartReason)
    requires
        job_wf(j),
        j.frames.len() > 0,
        j.frames.last().next < deps_of(j.frames.last()).len(),
        !j.frames.last().waiting,
    ensures
        job_wf(JobView { frames: j.frames.push(new_frame(s, reason)), last: None }),
{
    let k = JobView { frames: j.frames.push(new_frame(s, reason)), last: None };
    assert forall|i: int| 0 <= i < k.frames.len() - 1 implies #[trigger] k.frames[i].next < deps_of(k.frames[i]).len()
        && !k.frames[i].waiting by {
        assert(k.frames[i] == j.frames[i]);
        if i < j.frames.len() - 1 {
            assert(j.frames[i].next < deps_of(j.frames[i]).len());
        }
    }
    assert forall|i: int| 0 <= i < k.frames.len() implies #[trigger] k.frames[i].next <= deps_of(k.frames[i]).len()
        && (k.frames[i].waiting ==> k.frames[i].next == deps_of(k.frames[i]).len() && k.frames[i].ok
            && words(k.frames[i].srvc.data.command).len() > 0) by {
        if i < j.frames.len() {
            assert(k.frames[i] == j.frames[i]);
            assert(j.frames[i].next <= deps_of(j.frames[i]).len());
        }
    }
}

// ---------------------------------------------------------------------------
// The executable machine
// ---------------------------------------------------------------------------

impl StartJob {
    /// The start is well formed.
    pub open spec fn wf(&self) -> bool {
        job_wf(self@)
    }

    /// Whether the start is over.
    pub fn is_done(&self) -> (r: bool)
        ensures
            r == (self@.frames.len() == 0),
    {
        self.frames.len() == 0
    }

    /// The service as the start left it and the result, once the start is over.
    pub fn outcome(&self) -> (r: Option<(&Service, StartResult)>)
        ensures
            r is Some <==> self@.last is Some,
            r matches Some((s, res)) ==> self@.last == Some((s@, res)),
    {
        match &self.last {
            Some((s, res)) => Some((s, *res)),
            None => None,
        }
    }

    /// The start of `srvc` for `reason`.
    pub fn begin(srvc: Service, reason: StartReason) -> (j: StartJob)
        ensures
            j@ == begin_spec(srvc@, reason),
            j.wf(),
    {
        let ghost sv = srvc@;
        if srvc.state.is_active() || srvc.state.is_pending() {
            let j = StartJob { frames: Vec::new(), last: Some((srvc, StartResult::AlreadyActive)) };
            assert(j@.frames =~= seq![]);
            j
        } else {
            let mut frames: Vec<Frame> = Vec::new();
            frames.push(Frame { srvc, reason, next: 0, ok: true, waiting: false });
            let j = StartJob { frames, last: None };
            assert(j@.frames =~= seq![new_frame(sv, reason)]);
            j
        }
    }
}

/// The spawn request for a command line that has at least one word.
fn spawn_request(command: &String) -> (r: StartStep)
    requires
        words(command@).len() > 0,
    ensures
        r@ == spawn_of(command@),
{
    let mut w = split_words(command.as_str());
    let program = w.remove(0);
    let r = StartStep::Spawn(SpawnRequest { program, args: w });
    proof {
        assert(r@ == spawn_of(command@)) by {
            assert(w.deep_view() =~= words(command@).drop_first());
        }
    }
    r
}

/// Ends the innermost frame, already taken off `job`, with service `s` and
/// result `res`.
fn finish(services: &mut NameMap<Service>, job: &mut StartJob, s: Service, res: StartResult) -> (r: StartStep)
    requires
        old(job)@.last is None,
        outer_frames(old(job)@.frames),
    ensures
        final(job).wf(),
        (final(services)@, final(job)@, r@) == finish_frame(old(services)@, old(job)@.frames, s@, res),
        keys_distinct(old(services)@) ==> keys_distinct(final(services)@),
{
    let ghost rest = job@.frames;
    if job.frames.len() == 0 {
        job.last = Some((s, res));
        assert(job@.frames =~= rest);
        StartStep::Done(res)
    } else {
        let mut p = job.frames.pop().unwrap();
        proof {
            assert(rest.drop_last() =~= job@.frames);
            assert(rest[rest.len() - 1].next < deps_of(rest[rest.len() - 1]).len());
            assert(p.next == rest[rest.len() - 1].next);
            assert(p.srvc.data.depends.len() == deps_of(rest[rest.len() - 1]).len());
        }
        let notice = StartNotice::DependencyStarted {
            dependency: s.data.name.clone(),
            required_by: p.srvc.data.name.clone(),
            result: res,
        };
        if s.state.is_active() {
            services.insert(s.data.name.clone(), s);
        } else {
            p.ok = false;
        }
        p.next = p.next + 1;
        job.frames.push(p);
        proof {
            let q = rest.last();
            if s@.state.spec_is_active() {
                assert(job@.frames =~= rest.update(rest.len() - 1, FrameView { next: q.next + 1, ..q }));
            } else {
                assert(job@.frames =~= rest.update(rest.len() - 1, FrameView { next: q.next + 1, ok: false, ..q }));
            }
            assert forall|i: int| 0 <= i < job@.frames.len() implies #[trigger] job@.frames[i].next <= deps_of(job@.frames[i]).len()
                && (job@.frames[i].waiting ==> job@.frames[i].next == deps_of(job@.frames[i]).len() && job@.frames[i].ok) by {
                if i < job@.frames.len() - 1 {
                    assert(job@.frames[i] == rest[i]);
                }
            }
            assert forall|i: int| 0 <= i < job@.frames.len() - 1 implies #[trigger] job@.frames[i].next < deps_of(job@.frames[i]).len()
                && !job@.frames[i].waiting by {
                assert(job@.frames[i] == rest[i]);
                assert(rest[i].next < deps_of(rest[i]).len());
            }
        }
        StartStep::Notice(notice)
    }
}

/// Ends the innermost frame, already taken off `job`, with its service
/// started: written to the table with state `Starting`, the reason, and the
/// process id when a process was spawned.
fn record_started(
    services: &mut NameMap<Service>,
    job: &mut StartJob,
    srvc: Service,
    reason: StartReason,
    pid: Option<u32>,
) -> (r: StartStep)
    requires
        old(job)@.last is None,
        outer_frames(old(job)@.frames),
    ensures
        final(job).wf(),
        keys_distinct(old(services)@) ==> keys_distinct(final(services)@),
        ({
            let s = started(srvc@, reason, if pid is Some { pid } else { srvc@.pid });
            (final(services)@, final(job)@, r@) == finish_frame(
                table_insert(old(services)@, s.data.name, s),
                old(job)@.frames,
                s,
                StartResult::Success,
            )
        }),
{
    let mut s = srvc;
    s.state = ServiceState::Starting;
    if pid.is_some() {
        s.pid = pid;
    }
    s.reasn = reason;
    services.insert(s.data.name.clone(), s.duplicate());
    finish(services, job, s, StartResult::Success)
}

/// One transition of the start `job` on the table `services`.
pub(crate) fn step(services: &mut NameMap<Service>, job: &mut StartJob, event: Option<SpawnOutcome>) -> (r: StartStep)
    requires
        old(job).wf(),
    ensures
        final(job).wf(),
        (final(services)@, final(job)@, r@) == step_spec(old(services)@, old(job)@, event),
        keys_distinct(old(services)@) ==> keys_distinct(final(services)@),
{
    let ghost t = services@;
    let ghost j = job@;
    if job.frames.len() == 0 {
        let res = job.last.as_ref().unwrap().1;
        return StartStep::Done(res);
    }
    let mut f = job.frames.pop().unwrap();
    let ghost fv = j.frames.last();
    assert(j.frames.drop_last() =~= job@.frames);
    assert(fv == j.frames[j.frames.len() - 1]);
    assert(fv.next <= deps_of(fv).len());
    assert forall|i: int| 0 <= i < job@.frames.len() implies #[trigger] job@.frames[i].next < deps_of(
        job@.frames[i],
    ).len() && !job@.frames[i].waiting by {
        assert(job@.frames[i] == j.frames[i]);
        assert(j.frames[i].next < deps_of(j.frames[i]).len());
    }
    assert(outer_frames(job@.frames));
    if f.waiting {
        match event {
            None => {
                let r = spawn_request(&f.srvc.data.command);
                job.frames.push(f);
                assert(job@.frames =~= j.frames);
                assert(job@ == j);
                r
            },
            Some(SpawnOutcome::Spawned(pid)) => {
                record_started(services, job, f.srvc, f.reason, Some(pid))
            },
            Some(SpawnOutcome::Failed) => {
                f.srvc.state = ServiceState::SpawnFailure;
                finish(services, job, f.srvc, StartResult::SpawnFault)
            },
        }
    } else if f.next < f.srvc.data.depends.len() {
        let found = services.get(&f.srvc.data.depends[f.next]);
        match found {
            None => {
                let notice = StartNotice::UnknownDependency {
                    service: f.srvc.data.name.clone(),
                    dependency: f.srvc.data.depends[f.next].clone(),
                };
                f.ok = false;
                f.next = f.srvc.data.depends.len();
                job.frames.push(f);
                assert(job@.frames =~= j.frames.update(j.frames.len() - 1, FrameView { next: deps_of(fv).len(), ok: false, ..fv }));
                proof { lemma_with_top_wf(j, FrameView { next: deps_of(fv).len(), ok: false, ..fv }); }
                StartStep::Notice(notice)
            },
            Some(dep_ref) => {
                let dep = dep_ref.duplicate();
                if dep.state.is_active() {
                    services.insert(dep.data.name.clone(), dep);
                    f.next = f.next + 1;
                    job.frames.push(f);
                    assert(job@.frames =~= j.frames.update(j.frames.len() - 1, FrameView { next: fv.next + 1, ..fv }));
                    proof { lemma_with_top_wf(j, FrameView { next: fv.next + 1, ..fv }); }
                    StartStep::Continue
                } else if dep.state.is_pending() {
                    let notice = StartNotice::DependencyStarted {
                        dependency: dep.data.name.clone(),
                        required_by: f.srvc.data.name.clone(),
                        result: StartResult::AlreadyActive,
                    };
                    f.ok = false;
                    f.next = f.next + 1;
                    job.frames.push(f);
                    assert(job@.frames =~= j.frames.update(j.frames.len() - 1, FrameView { next: fv.next + 1, ok: false, ..fv }));
                    proof { lemma_with_top_wf(j, FrameView { next: fv.next + 1, ok: false, ..fv }); }
                    StartStep::Notice(notice)
                } else {
                    job.frames.push(f);
                    let ghost dv = dep@;
                    job.frames.push(Frame { srvc: dep, reason: StartReason::AsDep, next: 0, ok: true, waiting: false });
                    assert(job@.frames =~= j.frames.push(new_frame(dv, StartReason::AsDep)));
                    proof { lemma_push_wf(j, dv, StartReason::AsDep); }
                    StartStep::Continue
                }
            },
        }
    } else if !f.ok {
        finish(services, job, f.srvc, StartResult::DepFault)
    } else {
        let w = split_words(f.srvc.data.command.as_str());
        if w.len() > 0 {
            let r = spawn_request(&f.srvc.data.command);
            f.waiting = true;
            job.frames.push(f);
            assert(job@.frames =~= j.frames.update(j.frames.len() - 1, FrameView { waiting: true, ..fv }));
            proof { lemma_with_top_wf(j, FrameView { waiting: true, ..fv }); }
            r
        } else {
            record_started(services, job, f.srvc, f.reason, None)
        }
    }
}

} // verus!

verus! {

// ---------------------------------------------------------------------------
// What every transition keeps
// ---------------------------------------------------------------------------

/// Going from table `t` to table `u`, every entry that changed now holds an
/// active service. So no entry disappears and no active service becomes
/// inactive.
pub open spec fn grows_active(t: TableView, u: TableView) -> bool {
    forall|k: Seq<char>|
        #[trigger] lookup(u, k) != lookup(t, k) ==> (lookup(u, k) matches Some(v) && v.state.spec_is_active())
}

/// Every entry is stored under the name of its service.
pub open spec fn table_named(t: TableView) -> bool {
    forall|i: int| 0 <= i < t.len() ==> #[trigger] t[i].0 == t[i].1.data.name
}

/// The first `n` names of `ds` have entries in `t` that are active.
pub open spec fn deps_up(t: TableView, ds: Seq<Seq<char>>, n: nat) -> bool {
    forall|m: int|
        0 <= m < n ==> (#[trigger] lookup(t, ds[m]) matches Some(d) && d.state.spec_is_active())
}

/// What a start keeps true of the table: each service under way whose
/// dependencies have not failed so far found every dependency it looked at
/// active; each service under way but the innermost waits for the dependency
/// it looks at; and a start that succeeded left its service active.
pub open spec fn job_inv(t: TableView, j: JobView) -> bool {
    &&& forall|i: int|
        0 <= i < j.frames.len() && (#[trigger] j.frames[i]).ok ==> deps_up(
            t,
            deps_of(j.frames[i]),
            j.frames[i].next,
        )
    &&& forall|i: int|
        0 <= i < j.frames.len() - 1 ==> (#[trigger] j.frames[i + 1]).srvc.data.name == deps_of(
            j.frames[i],
        )[j.frames[i].next as int]
    &&& (j.last is Some && j.last.unwrap().1 == StartResult::Success ==> (lookup(
        t,
        j.last.unwrap().0.data.name,
    ) matches Some(v) && v.state.spec_is_active()))
}

pub proof fn lemma_grows_refl(t: TableView)
    ensures
        grows_active(t, t),
{
}

pub proof fn lemma_grows_trans(t: TableView, u: TableView, w: TableView)
    requires
        grows_active(t, u),
        grows_active(u, w),
    ensures
        grows_active(t, w),
{
    assert forall|k: Seq<char>| #[trigger] lookup(w, k) != lookup(t, k) implies (lookup(w, k) matches Some(
        v,
    ) && v.state.spec_is_active()) by {
        if lookup(w, k) == lookup(u, k) {
            assert(lookup(u, k) != lookup(t, k));
        }
    }
}

proof fn lemma_insert_active(t: TableView, k: Seq<char>, v: ServiceView)
    requires
        v.state.spec_is_active(),
    ensures
        grows_active(t, table_insert(t, k, v)),
        lookup(table_insert(t, k, v), k) == Some(v),
{
    assert forall|k2: Seq<char>| #[trigger] lookup(table_insert(t, k, v), k2) != lookup(t, k2) implies (lookup(
        table_insert(t, k, v),
        k2,
    ) matches Some(w) && w.state.spec_is_active()) by {
        lemma_lookup_insert(t, k, v, k2);
    }
    lemma_lookup_insert(t, k, v, k);
}

/// In a table whose entries stand under their services' names, the entry
/// found under a name is the service of that name.
pub proof fn lemma_named_lookup(t: TableView, k: Seq<char>)
    requires
        table_named(t),
        lookup(t, k) is Some,
    ensures
        lookup(t, k).unwrap().data.name == k,
{
    lemma_index_of(t, k);
    assert(t[index_of(t, k)].0 == t[index_of(t, k)].1.data.name);
}

proof fn lemma_named_insert(t: TableView, v: ServiceView)
    requires
        table_named(t),
    ensures
        table_named(table_insert(t, v.data.name, v)),
{
    let u = table_insert(t, v.data.name, v);
    lemma_index_of(t, v.data.name);
    assert forall|i: int| 0 <= i < u.len() implies #[trigger] u[i].0 == u[i].1.data.name by {
        if i < t.len() && i != index_of(t, v.data.name) {
            assert(u[i] == t[i]);
        }
    }
}

/// Dependencies found active stay active in a table that only grew in
/// active services.
pub proof fn lemma_deps_up_grows(t: TableView, u: TableView, ds: Seq<Seq<char>>, n: nat)
    requires
        deps_up(t, ds, n),
        grows_active(t, u),
    ensures
        deps_up(u, ds, n),
{
    assert forall|m: int| 0 <= m < n implies (#[trigger] lookup(u, ds[m]) matches Some(d)
        && d.state.spec_is_active()) by {
        assert(lookup(t, ds[m]) matches Some(d) && d.state.spec_is_active());
        if lookup(u, ds[m]) != lookup(t, ds[m]) {
        }
    }
}

proof fn lemma_deps_up_extend(t: TableView, ds: Seq<Seq<char>>, n: nat)
    requires
        deps_up(t, ds, n),
        n < ds.len(),
        lookup(t, ds[n as int]) matches Some(d) && d.state.spec_is_active(),
    ensures
        deps_up(t, ds, n + 1),
{
    assert forall|m: int| 0 <= m < n + 1 implies (#[trigger] lookup(t, ds[m]) matches Some(d)
        && d.state.spec_is_active()) by {
        if m < n {
            assert(lookup(t, ds[m]) matches Some(d) && d.state.spec_is_active());
        }
    }
}

/// The invariant of a start carries over to a table that grew.
proof fn lemma_job_inv_grows(t: TableView, u: TableView, j: JobView)
    requires
        job_inv(t, j),
        grows_active(t, u),
    ensures
        job_inv(u, j),
{
    assert forall|i: int| 0 <= i < j.frames.len() && (#[trigger] j.frames[i]).ok implies deps_up(
        u,
        deps_of(j.frames[i]),
        j.frames[i].next,
    ) by {
        lemma_deps_up_grows(t, u, deps_of(j.frames[i]), j.frames[i].next);
    }
    if j.last is Some {
        let (s, r) = j.last.unwrap();
        if r == StartResult::Success {
            assert(lookup(t, s.data.name) matches Some(v) && v.state.spec_is_active());
            if lookup(u, s.data.name) != lookup(t, s.data.name) {
            }
        }
    }
}

/// A start that has just begun keeps the invariant on any table.
pub proof fn lemma_begin_inv(t: TableView, s: ServiceView, reason: StartReason)
    ensures
        job_inv(t, begin_spec(s, reason)),
        job_wf(begin_spec(s, reason)),
{
    let j = begin_spec(s, reason);
    assert forall|i: int| 0 <= i < j.frames.len() && (#[trigger] j.frames[i]).ok implies deps_up(
        t,
        deps_of(j.frames[i]),
        j.frames[i].next,
    ) by {
        assert(j.frames[i].next == 0);
    }
}

proof fn lemma_finish_wf(t: TableView, j: JobView, s: ServiceView, res: StartResult)
    requires
        job_wf(j),
        j.frames.len() > 0,
    ensures
        job_wf(finish_frame(t, j.frames.drop_last(), s, res).1),
{
    let rest = j.frames.drop_last();
    let j2 = finish_frame(t, rest, s, res).1;
    if rest.len() > 0 {
        let n = rest.len() - 1;
        let p = rest.last();
        assert(p == j.frames[n]);
        assert(j.frames[n].next < deps_of(j.frames[n]).len() && !j.frames[n].waiting);
        assert(j2.frames.len() == rest.len());
        assert forall|i: int| 0 <= i < j2.frames.len() - 1 implies #[trigger] j2.frames[i].next < deps_of(
            j2.frames[i],
        ).len() && !j2.frames[i].waiting by {
            assert(j2.frames[i] == j.frames[i]);
            assert(j.frames[i].next < deps_of(j.frames[i]).len());
        }
        assert forall|i: int| 0 <= i < j2.frames.len() implies {
            &&& #[trigger] j2.frames[i].next <= deps_of(j2.frames[i]).len()
            &&& j2.frames[i].waiting ==> j2.frames[i].next == deps_of(j2.frames[i]).len()
                && j2.frames[i].ok && words(j2.frames[i].srvc.data.command).len() > 0
        } by {
            assert(j.frames[i].next < deps_of(j.frames[i]).len());
            if i < n {
                assert(j2.frames[i] == j.frames[i]);
            } else {
                assert(j2.frames[i].next == p.next + 1);
                assert(j2.frames[i].srvc == p.srvc);
                assert(!j2.frames[i].waiting);
            }
        }
    }
}

/// Ending the innermost frame with service `s`, which bears the name the
/// enclosing frame waited for, keeps the invariant.
proof fn lemma_finish_inv(t: TableView, j: JobView, s: ServiceView, res: StartResult)
    requires
        job_wf(j),
        job_inv(t, j),
        table_named(t),
        j.frames.len() > 0,
        s.data.name == j.frames.last().srvc.data.name,
        res == StartResult::Success ==> (lookup(t, s.data.name) matches Some(v) && v.state.spec_is_active()),
    ensures
        ({
            let (t2, j2, a) = finish_frame(t, j.frames.drop_last(), s, res);
            &&& job_inv(t2, j2)
            &&& table_named(t2)
            &&& grows_active(t, t2)
            &&& job_wf(j2)
        }),
{
    let rest = j.frames.drop_last();
    let (t2, j2, a) = finish_frame(t, rest, s, res);
    if rest.len() == 0 {
        lemma_grows_refl(t);
    } else {
        let n = rest.len() - 1;
        let p = rest.last();
        assert(p == j.frames[n]);
        assert(j.frames[n + 1].srvc.data.name == deps_of(j.frames[n])[j.frames[n].next as int]);
        assert(j.frames[n].next < deps_of(j.frames[n]).len());
        if s.state.spec_is_active() {
            lemma_insert_active(t, s.data.name, s);
            lemma_named_insert(t, s);
        } else {
            lemma_grows_refl(t);
        }
        assert forall|i: int| 0 <= i < j2.frames.len() && (#[trigger] j2.frames[i]).ok implies deps_up(
            t2,
            deps_of(j2.frames[i]),
            j2.frames[i].next,
        ) by {
            if i < n {
                assert(j2.frames[i] == j.frames[i]);
                lemma_deps_up_grows(t, t2, deps_of(j.frames[i]), j.frames[i].next);
            } else {
                assert(j.frames[n].ok);
                lemma_deps_up_grows(t, t2, deps_of(p), p.next);
                lemma_deps_up_extend(t2, deps_of(p), p.next);
            }
        }
        assert forall|i: int| 0 <= i < j2.frames.len() - 1 implies (#[trigger] j2.frames[i + 1]).srvc.data.name
            == deps_of(j2.frames[i])[j2.frames[i].next as int] by {
            assert(j2.frames[i] == j.frames[i]);
            assert(j.frames[i + 1].srvc == j2.frames[i + 1].srvc);
            assert(j.frames[i + 1].srvc.data.name == deps_of(j.frames[i])[j.frames[i].next as int]);
        }
        lemma_finish_wf(t, j, s, res);
    }
}

/// Every transition of a start keeps its invariant, stores each service
/// under its own name, and never makes an active service inactive; and
/// whenever it asks for a process to be spawned, each dependency of the
/// service to launch is active in the table.
pub proof fn lemma_launch_after_dependencies(t: TableView, j: JobView, event: Option<SpawnOutcome>)
    requires
        job_wf(j),
        job_inv(t, j),
        table_named(t),
    ensures
        ({
            let (t2, j2, a) = step_spec(t, j, event);
            &&& job_wf(j2)
            &&& job_inv(t2, j2)
            &&& table_named(t2)
            &&& grows_active(t, t2)
            &&& (a is Spawn ==> j2.frames.len() > 0 && deps_up(
                t2,
                deps_of(j2.frames.last()),
                deps_of(j2.frames.last()).len(),
            ))
        }),
{
    let (t2, j2, a) = step_spec(t, j, event);
    if j.frames.len() == 0 {
        lemma_grows_refl(t);
        return;
    }
    let top = j.frames.len() - 1;
    let f = j.frames.last();
    assert(f == j.frames[top]);
    assert(f.next <= deps_of(f).len());
    if f.waiting {
        assert(f.ok && f.next == deps_of(f).len());
        match event {
            None => {
                lemma_grows_refl(t);
                assert(deps_up(t, deps_of(f), f.next));
            },
            Some(SpawnOutcome::Spawned(pid)) => {
                let s = started(f.srvc, f.reason, Some(pid));
                let t1 = table_insert(t, s.data.name, s);
                lemma_insert_active(t, s.data.name, s);
                lemma_named_insert(t, s);
                lemma_job_inv_grows(t, t1, j);
                lemma_finish_inv(t1, j, s, StartResult::Success);
                lemma_grows_trans(t, t1, t2);
            },
            Some(SpawnOutcome::Failed) => {
                let s = ServiceView { state: ServiceState::SpawnFailure, ..f.srvc };
                lemma_finish_inv(t, j, s, StartResult::SpawnFault);
            },
        }
    } else if f.next < deps_of(f).len() {
        let d = deps_of(f)[f.next as int];
        match lookup(t, d) {
            None => {
                lemma_grows_refl(t);
                let g = FrameView { next: deps_of(f).len(), ok: false, ..f };
                lemma_with_top_wf(j, g);
                assert forall|i: int| 0 <= i < j2.frames.len() && (#[trigger] j2.frames[i]).ok implies deps_up(
                    t2,
                    deps_of(j2.frames[i]),
                    j2.frames[i].next,
                ) by {
                    assert(j2.frames[i] == j.frames[i]);
                }
                assert forall|i: int| 0 <= i < j2.frames.len() - 1 implies (#[trigger] j2.frames[i
                    + 1]).srvc.data.name == deps_of(j2.frames[i])[j2.frames[i].next as int] by {
                    assert(j2.frames[i] == j.frames[i]);
                    assert(j2.frames[i + 1].srvc == j.frames[i + 1].srvc);
                    assert(j.frames[i + 1].srvc.data.name == deps_of(j.frames[i])[j.frames[i].next as int]);
                }
            },
            Some(dep) => {
                lemma_named_lookup(t, d);
                if dep.state.spec_is_active() {
                    lemma_insert_active(t, dep.data.name, dep);
                    lemma_named_insert(t, dep);
                    let g = FrameView { next: f.next + 1, ..f };
                    lemma_with_top_wf(j, g);
                    lemma_job_inv_grows(t, t2, j);
                    assert forall|i: int| 0 <= i < j2.frames.len() && (#[trigger] j2.frames[i]).ok implies deps_up(
                        t2,
                        deps_of(j2.frames[i]),
                        j2.frames[i].next,
                    ) by {
                        if i < top {
                            assert(j2.frames[i] == j.frames[i]);
                        } else {
                            assert(deps_up(t2, deps_of(f), f.next));
                            lemma_deps_up_extend(t2, deps_of(f), f.next);
                        }
                    }
                    assert forall|i: int| 0 <= i < j2.frames.len() - 1 implies (#[trigger] j2.frames[i
                        + 1]).srvc.data.name == deps_of(j2.frames[i])[j2.frames[i].next as int] by {
                        assert(j2.frames[i] == j.frames[i]);
                        assert(j2.frames[i + 1].srvc == j.frames[i + 1].srvc);
                        assert(j.frames[i + 1].srvc.data.name == deps_of(j.frames[i])[j.frames[i].next as int]);
                    }
                } else if dep.state is Pending {
                    lemma_grows_refl(t);
                    let g = FrameView { next: f.next + 1, ok: false, ..f };
                    lemma_with_top_wf(j, g);
                    assert forall|i: int| 0 <= i < j2.frames.len() && (#[trigger] j2.frames[i]).ok implies deps_up(
                        t2,
                        deps_of(j2.frames[i]),
                        j2.frames[i].next,
                    ) by {
                        assert(j2.frames[i] == j.frames[i]);
                    }
                    assert forall|i: int| 0 <= i < j2.frames.len() - 1 implies (#[trigger] j2.frames[i
                        + 1]).srvc.data.name == deps_of(j2.frames[i])[j2.frames[i].next as int] by {
                        assert(j2.frames[i] == j.frames[i]);
                        assert(j2.frames[i + 1].srvc == j.frames[i + 1].srvc);
                        assert(j.frames[i + 1].srvc.data.name == deps_of(j.frames[i])[j.frames[i].next as int]);
                    }
                } else {
                    lemma_grows_refl(t);
                    lemma_push_wf(j, dep, StartReason::AsDep);
                    assert forall|i: int| 0 <= i < j2.frames.len() && (#[trigger] j2.frames[i]).ok implies deps_up(
                        t2,
                        deps_of(j2.frames[i]),
                        j2.frames[i].next,
                    ) by {
                        if i < j.frames.len() {
                            assert(j2.frames[i] == j.frames[i]);
                        }
                    }
                    assert forall|i: int| 0 <= i < j2.frames.len() - 1 implies (#[trigger] j2.frames[i
                        + 1]).srvc.data.name == deps_of(j2.frames[i])[j2.frames[i].next as int] by {
                        assert(j2.frames[i] == j.frames[i]);
                        if i < top {
                            assert(j2.frames[i + 1].srvc == j.frames[i + 1].srvc);
                            assert(j.frames[i + 1].srvc.data.name == deps_of(j.frames[i])[j.frames[i].next as int]);
                        }
                    }
                }
            },
        }
    } else if !f.ok {
        lemma_finish_inv(t, j, f.srvc, StartResult::DepFault);
    } else if words(f.srvc.data.command).len() > 0 {
        lemma_grows_refl(t);
        let g = FrameView { waiting: true, ..f };
        lemma_with_top_wf(j, g);
        assert(deps_up(t, deps_of(f), f.next));
        assert forall|i: int| 0 <= i < j2.frames.len() && (#[trigger] j2.frames[i]).ok implies deps_up(
            t2,
            deps_of(j2.frames[i]),
            j2.frames[i].next,
        ) by {
            assert(j.frames[i].ok ==> deps_up(t, deps_of(j.frames[i]), j.frames[i].next));
        }
        assert forall|i: int| 0 <= i < j2.frames.len() - 1 implies (#[trigger] j2.frames[i
            + 1]).srvc.data.name == deps_of(j2.frames[i])[j2.frames[i].next as int] by {
            assert(j2.frames[i] == j.frames[i]);
            assert(j2.frames[i + 1].srvc == j.frames[i + 1].srvc);
            assert(j.frames[i + 1].srvc.data.name == deps_of(j.frames[i])[j.frames[i].next as int]);
        }
    } else {
        let s = started(f.srvc, f.reason, f.srvc.pid);
        let t1 = table_insert(t, s.data.name, s);
        lemma_insert_active(t, s.data.name, s);
        lemma_named_insert(t, s);
        lemma_job_inv_grows(t, t1, j);
        lemma_finish_inv(t1, j, s, StartResult::Success);
        lemma_grows_trans(t, t1, t2);
    }
}

} // verus!

verus! {

// ---------------------------------------------------------------------------
// Starting only starts: the entries a start changes were inactive and are
// now starting
// ---------------------------------------------------------------------------

/// `rank` orders the dependency graph of `t`: each dependency of a service
/// ranks below the service. A table has such a rank exactly when its
/// dependencies have no cycle.
pub open spec fn ranked(t: TableView, rank: spec_fn(Seq<char>) -> nat) -> bool {
    forall|k: Seq<char>, m: int|
        #![trigger lookup(t, k).unwrap().data.depends[m]]
        lookup(t, k) is Some && 0 <= m < lookup(t, k).unwrap().data.depends.len() ==> rank(
            lookup(t, k).unwrap().data.depends[m],
        ) < rank(k)
}

/// Going from `t` to `u`, the entries stay where they were, and each either
/// is unchanged or held an inactive service that is now starting, with the
/// same description.
pub open spec fn starts_only(t: TableView, u: TableView) -> bool {
    &&& u.len() == t.len()
    &&& forall|i: int|
        #![trigger u[i]]
        0 <= i < t.len() ==> u[i].0 == t[i].0 && (u[i].1 == t[i].1 || (!t[i].1.state.spec_is_active()
            && u[i].1.state == ServiceState::Starting && u[i].1.data == t[i].1.data))
}

/// Each service under way has an entry under its name that describes it
/// the same way and is inactive, the service itself is inactive, and the
/// services under way rank lower the deeper they are.
pub open spec fn frames_fresh(t: TableView, j: JobView, rank: spec_fn(Seq<char>) -> nat) -> bool {
    &&& forall|i: int|
        #![trigger j.frames[i]]
        0 <= i < j.frames.len() ==> {
            &&& lookup(t, j.frames[i].srvc.data.name) is Some
            &&& lookup(t, j.frames[i].srvc.data.name).unwrap().data == j.frames[i].srvc.data
            &&& !lookup(t, j.frames[i].srvc.data.name).unwrap().state.spec_is_active()
            &&& !j.frames[i].srvc.state.spec_is_active()
        }
    &&& forall|i: int, k: int|
        #![trigger j.frames[i], j.frames[k]]
        0 <= i < k < j.frames.len() ==> rank(j.frames[k].srvc.data.name) < rank(j.frames[i].srvc.data.name)
}

pub proof fn lemma_starts_only_refl(t: TableView)
    ensures
        starts_only(t, t),
{
}

pub proof fn lemma_starts_only_trans(t: TableView, u: TableView, w: TableView)
    requires
        starts_only(t, u),
        starts_only(u, w),
    ensures
        starts_only(t, w),
{
    assert forall|i: int| #![trigger w[i]] 0 <= i < t.len() implies w[i].0 == t[i].0 && (w[i].1 == t[i].1 || (
    !t[i].1.state.spec_is_active() && w[i].1.state == ServiceState::Starting && w[i].1.data == t[i].1.data)) by {
        assert(u[i].0 == t[i].0);
        assert(w[i].0 == u[i].0);
    }
}

/// What a table that only started services finds under each name.
pub proof fn lemma_starts_only_lookup(t: TableView, u: TableView, k: Seq<char>)
    requires
        starts_only(t, u),
    ensures
        (lookup(u, k) is Some) == (lookup(t, k) is Some),
        lookup(t, k) is Some ==> lookup(u, k).unwrap().data == lookup(t, k).unwrap().data,
        lookup(t, k) is Some ==> (lookup(u, k) == lookup(t, k) || (!lookup(t, k).unwrap().state.spec_is_active()
            && lookup(u, k).unwrap().state == ServiceState::Starting)),
{
    assert forall|j: int| 0 <= j < t.len() implies #[trigger] t[j].0 == u[j].0 by {
        assert(u[j].0 == t[j].0);
    }
    crate::table::lemma_index_of_same_keys(t, u, k);
    lemma_index_of(t, k);
    if index_of(t, k) >= 0 {
        assert(u[index_of(t, k)].0 == t[index_of(t, k)].0);
    }
}

/// Writing the value that an entry already holds changes nothing.
proof fn lemma_insert_same(t: TableView, n: Seq<char>, v: ServiceView)
    requires
        lookup(t, n) == Some(v),
    ensures
        table_insert(t, n, v) == t,
{
    lemma_index_of(t, n);
    assert(t.update(index_of(t, n), (n, v)) =~= t);
}

/// Writing a starting service over the inactive entry of its name only starts it.
proof fn lemma_insert_start(t: TableView, n: Seq<char>, v: ServiceView)
    requires
        lookup(t, n) is Some,
        !lookup(t, n).unwrap().state.spec_is_active(),
        v.state == ServiceState::Starting,
        v.data == lookup(t, n).unwrap().data,
    ensures
        starts_only(t, table_insert(t, n, v)),
{
    lemma_index_of(t, n);
    let u = table_insert(t, n, v);
    assert forall|i: int| #![trigger u[i]] 0 <= i < t.len() implies u[i].0 == t[i].0 && (u[i].1 == t[i].1 || (
    !t[i].1.state.spec_is_active() && u[i].1.state == ServiceState::Starting && u[i].1.data == t[i].1.data)) by {
    }
}

proof fn lemma_ranked_starts_only(t: TableView, u: TableView, rank: spec_fn(Seq<char>) -> nat)
    requires
        ranked(t, rank),
        starts_only(t, u),
    ensures
        ranked(u, rank),
{
    assert forall|k: Seq<char>, m: int|
        #![trigger lookup(u, k).unwrap().data.depends[m]]
        lookup(u, k) is Some && 0 <= m < lookup(u, k).unwrap().data.depends.len() implies rank(
        lookup(u, k).unwrap().data.depends[m],
    ) < rank(k) by {
        lemma_starts_only_lookup(t, u, k);
        assert(lookup(t, k).unwrap().data.depends[m] == lookup(u, k).unwrap().data.depends[m]);
    }
}

/// The frames keep their entries as long as no entry of theirs changes.
proof fn lemma_frames_fresh_keep(
    t: TableView,
    u: TableView,
    fs: Seq<FrameView>,
    gs: Seq<FrameView>,
    rank: spec_fn(Seq<char>) -> nat,
)
    requires
        frames_fresh(t, JobView { frames: fs, last: None }, rank),
        gs.len() <= fs.len(),
        forall|i: int| #![trigger gs[i]] 0 <= i < gs.len() ==> gs[i].srvc == fs[i].srvc,
        forall|i: int| #![trigger fs[i]] 0 <= i < gs.len() ==> lookup(u, fs[i].srvc.data.name) == lookup(
            t,
            fs[i].srvc.data.name,
        ),
    ensures
        frames_fresh(u, JobView { frames: gs, last: None }, rank),
{
    let jf = JobView { frames: fs, last: None };
    let jg = JobView { frames: gs, last: None };
    assert forall|i: int| #![trigger jg.frames[i]] 0 <= i < jg.frames.len() implies {
        &&& lookup(u, jg.frames[i].srvc.data.name) is Some
        &&& lookup(u, jg.frames[i].srvc.data.name).unwrap().data == jg.frames[i].srvc.data
        &&& !lookup(u, jg.frames[i].srvc.data.name).unwrap().state.spec_is_active()
        &&& !jg.frames[i].srvc.state.spec_is_active()
    } by {
        assert(gs[i].srvc == fs[i].srvc);
        assert(jf.frames[i] == fs[i]);
        assert(lookup(u, fs[i].srvc.data.name) == lookup(t, fs[i].srvc.data.name));
    }
    assert forall|i: int, k: int| #![trigger jg.frames[i], jg.frames[k]] 0 <= i < k < jg.frames.len() implies rank(
        jg.frames[k].srvc.data.name,
    ) < rank(jg.frames[i].srvc.data.name) by {
        assert(gs[i].srvc == fs[i].srvc);
        assert(gs[k].srvc == fs[k].srvc);
        assert(jf.frames[i] == fs[i] && jf.frames[k] == fs[k]);
    }
}

/// A start begun on a service that stands inactive in the table under its
/// own name keeps the frames fresh.
pub proof fn lemma_begin_fresh(t: TableView, s: ServiceView, reason: StartReason, rank: spec_fn(Seq<char>) -> nat)
    requires
        lookup(t, s.data.name) == Some(s),
    ensures
        frames_fresh(t, begin_spec(s, reason), rank),
{
}

/// Ending the innermost frame with a service `s` that is inactive, or that
/// the table already holds under its name, keeps the frames below fresh
/// (given they are) and changes no entry.
proof fn lemma_finish_fresh_prefix(t: TableView, j: JobView, s: ServiceView, res: StartResult, rank: spec_fn(Seq<char>) -> nat)
    requires
        j.frames.len() > 0,
        job_wf(j),
        frames_fresh(t, JobView { frames: j.frames.drop_last(), last: None }, rank),
        s.data.name == j.frames.last().srvc.data.name,
        s.state.spec_is_active() ==> lookup(t, s.data.name) == Some(s),
    ensures
        ({
            let (t2, j2, a) = finish_frame(t, j.frames.drop_last(), s, res);
            t2 == t && frames_fresh(t2, j2, rank)
        }),
{
    let rest = j.frames.drop_last();
    let (t2, j2, a) = finish_frame(t, rest, s, res);
    if s.state.spec_is_active() {
        lemma_insert_same(t, s.data.name, s);
    }
    assert forall|i: int| #![trigger j2.frames[i]] 0 <= i < j2.frames.len() implies j2.frames[i].srvc == rest[i].srvc by {
    }
    assert forall|i: int| #![trigger rest[i]] 0 <= i < j2.frames.len() implies lookup(t2, rest[i].srvc.data.name)
        == lookup(t, rest[i].srvc.data.name) by {
    }
    lemma_frames_fresh_keep(t, t2, rest, j2.frames, rank);
}

proof fn lemma_finish_fresh(t: TableView, j: JobView, s: ServiceView, res: StartResult, rank: spec_fn(Seq<char>) -> nat)
    requires
        j.frames.len() > 0,
        job_wf(j),
        frames_fresh(t, j, rank),
        s.data.name == j.frames.last().srvc.data.name,
        !s.state.spec_is_active(),
    ensures
        ({
            let (t2, j2, a) = finish_frame(t, j.frames.drop_last(), s, res);
            t2 == t && frames_fresh(t2, j2, rank)
        }),
{
    assert forall|i: int| #![trigger j.frames[i]] 0 <= i < j.frames.drop_last().len() implies lookup(t, j.frames[i].srvc.data.name)
        == lookup(t, j.frames[i].srvc.data.name) by {
    }
    lemma_frames_fresh_keep(t, t, j.frames, j.frames.drop_last(), rank);
    lemma_finish_fresh_prefix(t, j, s, res, rank);
}

/// Every transition of a start, in a table whose entries stand under their
/// services' names and whose dependencies have no cycle, changes only
/// entries that held an inactive service, and each of them to a starting
/// service with the same description.
pub proof fn lemma_step_starts_only(t: TableView, j: JobView, event: Option<SpawnOutcome>, rank: spec_fn(Seq<char>) -> nat)
    requires
        job_wf(j),
        table_named(t),
        ranked(t, rank),
        frames_fresh(t, j, rank),
    ensures
        ({
            let (t2, j2, a) = step_spec(t, j, event);
            &&& starts_only(t, t2)
            &&& table_named(t2)
            &&& ranked(t2, rank)
            &&& frames_fresh(t2, j2, rank)
        }),
{
    let (t2, j2, a) = step_spec(t, j, event);
    if j.frames.len() == 0 {
        return;
    }
    let top = j.frames.len() - 1;
    let f = j.frames.last();
    assert(f == j.frames[top]);
    if f.waiting {
        match event {
            None => {},
            Some(SpawnOutcome::Spawned(pid)) => {
                let s = started(f.srvc, f.reason, Some(pid));
                let t1 = table_insert(t, s.data.name, s);
                lemma_insert_start(t, s.data.name, s);
                lemma_named_insert(t, s);
                lemma_lookup_insert(t, s.data.name, s, s.data.name);
                assert forall|i: int| #![trigger j.frames[i]] 0 <= i < top implies lookup(t1, j.frames[i].srvc.data.name)
                    == lookup(t, j.frames[i].srvc.data.name) by {
                    assert(rank(j.frames[top].srvc.data.name) < rank(j.frames[i].srvc.data.name));
                    lemma_lookup_insert(t, s.data.name, s, j.frames[i].srvc.data.name);
                }
                lemma_frames_fresh_keep(t, t1, j.frames, j.frames.drop_last(), rank);
                lemma_finish_fresh_prefix(t1, j, s, StartResult::Success, rank);
                lemma_ranked_starts_only(t, t1, rank);
            },
            Some(SpawnOutcome::Failed) => {
                let s = ServiceView { state: ServiceState::SpawnFailure, ..f.srvc };
                lemma_finish_fresh(t, j, s, StartResult::SpawnFault, rank);
            },
        }
    } else if f.next < deps_of(f).len() {
        let d = deps_of(f)[f.next as int];
        match lookup(t, d) {
            None => {
                lemma_frames_fresh_keep(t, t, j.frames, j2.frames, rank);
            },
            Some(dep) => {
                lemma_named_lookup(t, d);
                if dep.state.spec_is_active() {
                    lemma_insert_same(t, d, dep);
                    lemma_frames_fresh_keep(t, t, j.frames, j2.frames, rank);
                } else if dep.state is Pending {
                    lemma_frames_fresh_keep(t, t, j.frames, j2.frames, rank);
                } else {
                    assert(lookup(t, f.srvc.data.name).unwrap().data == f.srvc.data);
                    assert(rank(lookup(t, f.srvc.data.name).unwrap().data.depends[f.next as int]) < rank(f.srvc.data.name));
                    assert forall|i: int| #![trigger j2.frames[i]] 0 <= i < j2.frames.len() implies {
                        &&& lookup(t, j2.frames[i].srvc.data.name) is Some
                        &&& lookup(t, j2.frames[i].srvc.data.name).unwrap().data == j2.frames[i].srvc.data
                        &&& !lookup(t, j2.frames[i].srvc.data.name).unwrap().state.spec_is_active()
                        &&& !j2.frames[i].srvc.state.spec_is_active()
                    } by {
                        if i < j.frames.len() {
                            assert(j2.frames[i] == j.frames[i]);
                        }
                    }
                    assert forall|i: int, k: int| #![trigger j2.frames[i], j2.frames[k]] 0 <= i < k < j2.frames.len() implies rank(
                        j2.frames[k].srvc.data.name,
                    ) < rank(j2.frames[i].srvc.data.name) by {
                        assert(j2.frames[i] == j.frames[i]);
                        if k < j.frames.len() {
                            assert(j2.frames[k] == j.frames[k]);
                        } else if i < top {
                            assert(rank(j.frames[top].srvc.data.name) < rank(j.frames[i].srvc.data.name));
                        }
                    }
                }
            },
        }
    } else if !f.ok {
        lemma_finish_fresh(t, j, f.srvc, StartResult::DepFault, rank);
    } else if words(f.srvc.data.command).len() > 0 {
        lemma_frames_fresh_keep(t, t, j.frames, j2.frames, rank);
    } else {
        let s = started(f.srvc, f.reason, f.srvc.pid);
        let t1 = table_insert(t, s.data.name, s);
        lemma_insert_start(t, s.data.name, s);
        lemma_named_insert(t, s);
        lemma_lookup_insert(t, s.data.name, s, s.data.name);
        assert forall|i: int| #![trigger j.frames[i]] 0 <= i < top implies lookup(t1, j.frames[i].srvc.data.name)
            == lookup(t, j.frames[i].srvc.data.name) by {
            assert(rank(j.frames[top].srvc.data.name) < rank(j.frames[i].srvc.data.name));
            lemma_lookup_insert(t, s.data.name, s, j.frames[i].srvc.data.name);
        }
        lemma_frames_fresh_keep(t, t1, j.frames, j.frames.drop_last(), rank);
        lemma_finish_fresh_prefix(t1, j, s, StartResult::Success, rank);
        lemma_ranked_starts_only(t, t1, rank);
    }
}

} // verus!

verus! {

// ---------------------------------------------------------------------------
// A start ends: a measure that every answered transition decreases
// ---------------------------------------------------------------------------

/// No service of `t` has more than `width` dependencies.
pub open spec fn width_bounded(t: TableView, width: nat) -> bool {
    forall|k: Seq<char>| #[trigger] lookup(t, k) is Some ==> lookup(t, k).unwrap().data.depends.len() <= width
}

/// A bound on the transitions that the start of a service of rank `r` takes.
pub open spec fn full_cost(width: nat, r: nat) -> nat
    decreases r,
{
    if r == 0 {
        3
    } else {
        width * (full_cost(width, (r - 1) as nat) + 3) + 3
    }
}

/// What one dependency of the service of frame `f` may still cost.
pub open spec fn slot_cost(width: nat, rank: spec_fn(Seq<char>) -> nat, f: FrameView) -> nat {
    let r = rank(f.srvc.data.name);
    if r == 0 {
        3
    } else {
        full_cost(width, (r - 1) as nat) + 3
    }
}

/// What frame `f` may still cost; `below` tells whether a frame above it
/// starts its current dependency.
pub open spec fn frame_cost(width: nat, rank: spec_fn(Seq<char>) -> nat, f: FrameView, below: bool) -> nat {
    let left = (deps_of(f).len() - f.next) as nat;
    let own = if below {
        ((left - 1) as nat) * slot_cost(width, rank, f) + 2
    } else {
        left * slot_cost(width, rank, f)
    };
    own + if f.waiting {
        1nat
    } else {
        2nat
    }
}

/// What the frames below the innermost may still cost.
pub open spec fn lower_cost(width: nat, rank: spec_fn(Seq<char>) -> nat, fs: Seq<FrameView>) -> nat
    decreases fs.len(),
{
    if fs.len() == 0 {
        0
    } else {
        lower_cost(width, rank, fs.drop_last()) + frame_cost(width, rank, fs.last(), true)
    }
}

/// What the start may still cost: zero once it is over.
pub open spec fn start_measure(width: nat, rank: spec_fn(Seq<char>) -> nat, j: JobView) -> nat {
    if j.frames.len() == 0 {
        0
    } else {
        lower_cost(width, rank, j.frames.drop_last()) + frame_cost(width, rank, j.frames.last(), false)
    }
}

proof fn lemma_full_cost_mono(width: nat, a: nat, b: nat)
    requires
        a <= b,
    ensures
        full_cost(width, a) <= full_cost(width, b),
        full_cost(width, b) >= 3,
    decreases b,
{
    if b > 0 {
        let x = full_cost(width, (b - 1) as nat);
        if a < b {
            lemma_full_cost_mono(width, a, (b - 1) as nat);
        } else {
            lemma_full_cost_mono(width, (b - 1) as nat, (b - 1) as nat);
        }
        assert(width * (x + 3) + 3 >= 3) by (nonlinear_arith);
        if width > 0 {
            assert(width * (x + 3) >= x + 3) by (nonlinear_arith)
                requires
                    width > 0,
            ;
        }
    }
}

proof fn lemma_fresh_cost(width: nat, rank: spec_fn(Seq<char>) -> nat, c: FrameView)
    requires
        c.next == 0,
        !c.waiting,
        deps_of(c).len() <= width,
        rank(c.srvc.data.name) == 0 ==> deps_of(c).len() == 0,
    ensures
        frame_cost(width, rank, c, false) < full_cost(width, rank(c.srvc.data.name)),
{
    let r = rank(c.srvc.data.name);
    let len = deps_of(c).len();
    let s = slot_cost(width, rank, c);
    if r == 0 {
        assert(len * s == 0) by (nonlinear_arith)
            requires
                len == 0,
        ;
    } else {
        let x = full_cost(width, (r - 1) as nat);
        assert(len * (x + 3) <= width * (x + 3)) by (nonlinear_arith)
            requires
                len <= width,
        ;
    }
}

proof fn lemma_slot_step(left: nat, s: nat)
    requires
        left >= 1,
    ensures
        left * s == ((left - 1) as nat) * s + s,
{
    assert(left * s == ((left - 1) as nat) * s + s) by (nonlinear_arith)
        requires
            left >= 1,
    ;
}

/// Ending the innermost frame leaves no more to do than the frames below it
/// still had.
proof fn lemma_finish_cost(
    width: nat,
    rank: spec_fn(Seq<char>) -> nat,
    t: TableView,
    rest: Seq<FrameView>,
    s: ServiceView,
    res: StartResult,
)
    requires
        rest.len() > 0 ==> rest.last().next < deps_of(rest.last()).len() && !rest.last().waiting,
    ensures
        ({
            let (t2, j2, a) = finish_frame(t, rest, s, res);
            &&& start_measure(width, rank, j2) < lower_cost(width, rank, rest) || rest.len() == 0
            &&& (j2.frames.len() == 0 <==> a is Done)
            &&& j2.frames.len() == 0 ==> start_measure(width, rank, j2) == 0
        }),
{
    let (t2, j2, a) = finish_frame(t, rest, s, res);
    if rest.len() > 0 {
        let p = rest.last();
        let q = j2.frames.last();
        assert(j2.frames.drop_last() =~= rest.drop_last());
        assert(q.srvc == p.srvc && q.next == p.next + 1 && !q.waiting);
        assert(slot_cost(width, rank, q) == slot_cost(width, rank, p));
        assert((deps_of(q).len() - q.next) as nat == ((deps_of(p).len() - p.next) as nat - 1) as nat);
        assert(frame_cost(width, rank, q, false) + 2 == frame_cost(width, rank, p, true));
    }
}

/// Every transition of a start that is given the outcome of the spawn it
/// asked for (when it asked for one), in a table whose dependencies have no
/// cycle, lowers a natural number that is zero once the start is over. So a
/// start whose spawns are answered ends.
pub proof fn lemma_start_ends(
    t: TableView,
    j: JobView,
    event: Option<SpawnOutcome>,
    rank: spec_fn(Seq<char>) -> nat,
    width: nat,
)
    requires
        job_wf(j),
        table_named(t),
        ranked(t, rank),
        width_bounded(t, width),
        frames_fresh(t, j, rank),
        j.frames.len() > 0,
        !(j.frames.last().waiting && event is None),
    ensures
        ({
            let (t2, j2, a) = step_spec(t, j, event);
            &&& start_measure(width, rank, j2) < start_measure(width, rank, j)
            &&& width_bounded(t2, width)
            &&& (j2.frames.len() == 0 <==> a is Done)
        }),
{
    let (t2, j2, a) = step_spec(t, j, event);
    lemma_step_starts_only(t, j, event, rank);
    assert forall|k: Seq<char>| #[trigger] lookup(t2, k) is Some implies lookup(t2, k).unwrap().data.depends.len() <= width by {
        lemma_starts_only_lookup(t, t2, k);
    }
    let top = j.frames.len() - 1;
    let f = j.frames.last();
    assert(f == j.frames[top]);
    let rest = j.frames.drop_last();
    let lo = lower_cost(width, rank, rest);
    let sf = slot_cost(width, rank, f);
    let left = (deps_of(f).len() - f.next) as nat;
    assert(f.next <= deps_of(f).len());
    assert(start_measure(width, rank, j) == lo + frame_cost(width, rank, f, false));
    if rest.len() > 0 {
        assert(rest.last() == j.frames[top - 1]);
    }
    assert(sf >= 3) by {
        if rank(f.srvc.data.name) > 0 {
            lemma_full_cost_mono(width, 0, (rank(f.srvc.data.name) - 1) as nat);
        }
    }
    if f.waiting {
        match event {
            None => {},
            Some(SpawnOutcome::Spawned(pid)) => {
                let s = started(f.srvc, f.reason, Some(pid));
                lemma_finish_cost(width, rank, table_insert(t, s.data.name, s), rest, s, StartResult::Success);
            },
            Some(SpawnOutcome::Failed) => {
                let s = ServiceView { state: ServiceState::SpawnFailure, ..f.srvc };
                lemma_finish_cost(width, rank, t, rest, s, StartResult::SpawnFault);
            },
        }
    } else if f.next < deps_of(f).len() {
        let d = deps_of(f)[f.next as int];
        lemma_slot_step(left, sf);
        assert(j2.frames.len() > 0);
        match lookup(t, d) {
            None => {
                let g = j2.frames.last();
                assert(j2.frames.drop_last() =~= rest);
                assert(g.next == deps_of(f).len() && !g.waiting && g.srvc == f.srvc);
                assert(0nat * slot_cost(width, rank, g) == 0) by (nonlinear_arith);
                assert(frame_cost(width, rank, g, false) == 2);
                assert(left * sf >= sf) by (nonlinear_arith)
                    requires
                        left >= 1,
                ;
            },
            Some(dep) => {
                if dep.state.spec_is_active() || dep.state is Pending {
                    let g = j2.frames.last();
                    assert(j2.frames.drop_last() =~= rest);
                    assert(g.next == f.next + 1 && !g.waiting && g.srvc == f.srvc);
                    assert(slot_cost(width, rank, g) == sf);
                    assert(frame_cost(width, rank, g, false) == ((left - 1) as nat) * sf + 2);
                } else {
                    // a dependency's start is pushed
                    let c = new_frame(dep, StartReason::AsDep);
                    lemma_named_lookup(t, d);
                    assert(lookup(t, f.srvc.data.name).unwrap().data == f.srvc.data);
                    assert(rank(lookup(t, f.srvc.data.name).unwrap().data.depends[f.next as int]) < rank(f.srvc.data.name));
                    let rc = rank(d);
                    let rf = rank(f.srvc.data.name);
                    assert(lookup(t, d).unwrap().data.depends.len() <= width);
                    if rc == 0 && deps_of(c).len() > 0 {
                        assert(rank(lookup(t, d).unwrap().data.depends[0]) < rank(d));
                    }
                    lemma_fresh_cost(width, rank, c);
                    lemma_full_cost_mono(width, rc, (rf - 1) as nat);
                    assert(j2.frames.drop_last() =~= j.frames);
                    assert(j2.frames.last() == c);
                    assert(lower_cost(width, rank, j.frames) == lo + frame_cost(width, rank, f, true));
                    assert(start_measure(width, rank, j2) == lower_cost(width, rank, j.frames) + frame_cost(width, rank, c, false));
                    assert(sf == full_cost(width, (rf - 1) as nat) + 3);
                }
            },
        }
    } else if !f.ok {
        lemma_finish_cost(width, rank, t, rest, f.srvc, StartResult::DepFault);
    } else if words(f.srvc.data.command).len() > 0 {
        let g = j2.frames.last();
        assert(j2.frames.drop_last() =~= rest);
        assert(g.next == f.next && g.waiting && g.srvc == f.srvc);
        assert(left == 0);
        assert(0nat * sf == 0) by (nonlinear_arith);
        assert(frame_cost(width, rank, g, false) == 1);
        assert(frame_cost(width, rank, f, false) == 2);
    } else {
        let s = started(f.srvc, f.reason, f.srvc.pid);
        lemma_finish_cost(width, rank, table_insert(t, s.data.name, s), rest, s, StartResult::Success);
    }
}

/// A start in a table whose dependencies have no cycle is never deeper than
/// the table is long: the services under way have entries of their own and
/// no two of them are the same.
pub proof fn lemma_start_depth(t: TableView, j: JobView, rank: spec_fn(Seq<char>) -> nat)
    requires
        frames_fresh(t, j, rank),
    ensures
        j.frames.len() <= t.len(),
{
    let n = j.frames.len();
    let pos = Seq::new(n, |i: int| index_of(t, j.frames[i].srvc.data.name));
    assert forall|i: int| 0 <= i < n implies 0 <= #[trigger] pos[i] < t.len() && t[pos[i]].0
        == j.frames[i].srvc.data.name by {
        assert(lookup(t, j.frames[i].srvc.data.name) is Some);
        lemma_index_of(t, j.frames[i].srvc.data.name);
    }
    assert(pos.no_duplicates()) by {
        assert forall|a: int, b: int| 0 <= a < pos.len() && 0 <= b < pos.len() && a != b implies pos[a] != pos[b] by {
            assert(0 <= pos[a] < t.len() && 0 <= pos[b] < t.len());
            if a < b {
                assert(rank(j.frames[b].srvc.data.name) < rank(j.frames[a].srvc.data.name));
            } else {
                assert(rank(j.frames[a].srvc.data.name) < rank(j.frames[b].srvc.data.name));
            }
        }
    }
    pos.unique_seq_to_set();
    vstd::set_lib::lemma_int_range(0, t.len() as int);
    assert(pos.to_set().subset_of(vstd::set_lib::set_int_range(0, t.len() as int))) by {
        assert forall|x: int| pos.to_set().contains(x) implies vstd::set_lib::set_int_range(0, t.len() as int).contains(x) by {
            let w = choose|i: int| 0 <= i < pos.len() && pos[i] == x;
            assert(0 <= pos[w] < t.len());
        }
    }
    vstd::set_lib::lemma_len_subset(pos.to_set(), vstd::set_lib::set_int_range(0, t.len() as int));
}


// ---------------------------------------------------------------------------
// A start of a service that the table does not hold
// ---------------------------------------------------------------------------

/// The table `t` with the outermost service of `j` appended under its name.
pub open spec fn with_outer(t: TableView, j: JobView) -> TableView {
    t.push((j.frames[0].srvc.data.name, j.frames[0].srvc))
}

/// A start under way whose outermost service has no entry in `t`: it stands
/// as it would in `t` with that service appended, and with it the
/// dependencies have no cycle.
pub open spec fn fresh_outside(t: TableView, j: JobView, rank: spec_fn(Seq<char>) -> nat) -> bool {
    &&& j.frames.len() > 0
    &&& lookup(t, j.frames[0].srvc.data.name) is None
    &&& ranked(with_outer(t, j), rank)
    &&& frames_fresh(with_outer(t, j), j, rank)
}

/// Going from `t` to `u`, the entries of `t` only start (as in
/// `starts_only`), or one entry is added under `n`, holding a starting
/// service, and nothing else changes.
pub open spec fn starts_or_adds(t: TableView, u: TableView, n: Seq<char>) -> bool {
    ||| starts_only(t, u)
    ||| (u.len() == t.len() + 1 && u.drop_last() == t && u.last().0 == n && u.last().1.state
        == ServiceState::Starting)
}

/// Ending the innermost frame reads and writes the table with an entry
/// appended under a name that it does not write as it reads and writes the
/// table itself.
proof fn lemma_finish_outside(t: TableView, rest: Seq<FrameView>, s: ServiceView, res: StartResult, e: (Seq<char>, ServiceView))
    requires
        lookup(t, e.0) is None,
        rest.len() > 0 && s.state.spec_is_active() ==> s.data.name != e.0 && lookup(t, s.data.name) is Some,
    ensures
        ({
            let (a1, b1, c1) = finish_frame(t.push(e), rest, s, res);
            let (a2, b2, c2) = finish_frame(t, rest, s, res);
            a1 == a2.push(e) && b1 == b2 && c1 == c2
        }),
{
    lemma_push_absent(t, e, s.data.name, s);
}

/// A transition of a start whose outermost service `t` does not hold goes
/// as it would in the table with that service appended.
proof fn lemma_step_outside_sim(t: TableView, j: JobView, event: Option<SpawnOutcome>, rank: spec_fn(Seq<char>) -> nat)
    requires
        job_wf(j),
        table_named(t),
        fresh_outside(t, j, rank),
    ensures
        ({
            let e0 = (j.frames[0].srvc.data.name, j.frames[0].srvc);
            let (tp, jp, ap) = step_spec(with_outer(t, j), j, event);
            let (t2, j2, a) = step_spec(t, j, event);
            &&& jp == j2
            &&& ap == a
            &&& (tp == t2.push(e0) || (tp == t2 && j2.frames.len() == 0 && t2.len() == t.len() + 1
                && t2.drop_last() == t && t2.last().0 == e0.0 && t2.last().1.state == ServiceState::Starting))
            &&& (j2.frames.len() > 0 ==> j2.frames[0].srvc == j.frames[0].srvc)
        }),
{
    let n0 = j.frames[0].srvc.data.name;
    let e0 = (n0, j.frames[0].srvc);
    let tt = with_outer(t, j);
    let (tp, jp, ap) = step_spec(tt, j, event);
    let (t2, j2, a) = step_spec(t, j, event);
    let top = j.frames.len() - 1;
    let f = j.frames.last();
    let rest = j.frames.drop_last();
    assert(f == j.frames[top]);
    assert(lookup(tt, f.srvc.data.name) is Some && lookup(tt, f.srvc.data.name).unwrap().data == f.srvc.data);
    assert(!f.srvc.state.spec_is_active());
    if top > 0 {
        assert(rank(j.frames[top].srvc.data.name) < rank(j.frames[0].srvc.data.name));
        lemma_push_absent(t, e0, f.srvc.data.name, f.srvc);
        assert(rest[0] == j.frames[0]);
    }
    assert(rank(f.srvc.data.name) <= rank(n0));
    if f.waiting {
        match event {
            None => {},
            Some(SpawnOutcome::Spawned(pid)) => {
                let s = started(f.srvc, f.reason, Some(pid));
                lemma_push_absent(t, e0, s.data.name, s);
                if top == 0 {
                    assert(t.push((n0, s)).drop_last() =~= t);
                } else {
                    let t1 = table_insert(t, s.data.name, s);
                    lemma_lookup_insert(t, s.data.name, s, n0);
                    lemma_lookup_insert(t, s.data.name, s, s.data.name);
                    lemma_finish_outside(t1, rest, s, StartResult::Success, e0);
                }
            },
            Some(SpawnOutcome::Failed) => {
                let s = ServiceView { state: ServiceState::SpawnFailure, ..f.srvc };
                lemma_finish_outside(t, rest, s, StartResult::SpawnFault, e0);
            },
        }
    } else if f.next < deps_of(f).len() {
        let d = deps_of(f)[f.next as int];
        assert(rank(lookup(tt, f.srvc.data.name).unwrap().data.depends[f.next as int]) < rank(f.srvc.data.name));
        lemma_push_absent(t, e0, d, f.srvc);
        match lookup(t, d) {
            None => {},
            Some(dep) => {
                lemma_named_lookup(t, d);
                lemma_push_absent(t, e0, d, dep);
                if !dep.state.spec_is_active() && !(dep.state is Pending) {
                    assert(j2.frames[0] == j.frames[0]);
                }
            },
        }
    } else if !f.ok {
        lemma_finish_outside(t, rest, f.srvc, StartResult::DepFault, e0);
    } else if words(f.srvc.data.command).len() > 0 {
    } else {
        let s = started(f.srvc, f.reason, f.srvc.pid);
        lemma_push_absent(t, e0, s.data.name, s);
        if top == 0 {
            assert(t.push((n0, s)).drop_last() =~= t);
        } else {
            let t1 = table_insert(t, s.data.name, s);
            lemma_lookup_insert(t, s.data.name, s, n0);
            lemma_lookup_insert(t, s.data.name, s, s.data.name);
            lemma_finish_outside(t1, rest, s, StartResult::Success, e0);
        }
    }
}

/// Every transition of a start of a service that the table does not hold,
/// in a table whose entries stand under their services' names and whose
/// dependencies (with that service) have no cycle, changes only entries
/// that held an inactive service, each to a starting service with the same
/// description, or adds one entry: the outermost service, starting.
pub proof fn lemma_step_starts_or_adds(t: TableView, j: JobView, event: Option<SpawnOutcome>, rank: spec_fn(Seq<char>) -> nat)
    requires
        job_wf(j),
        table_named(t),
        fresh_outside(t, j, rank),
    ensures
        ({
            let (t2, j2, a) = step_spec(t, j, event);
            &&& starts_or_adds(t, t2, j.frames[0].srvc.data.name)
            &&& table_named(t2)
            &&& (j2.frames.len() > 0 ==> fresh_outside(t2, j2, rank) && j2.frames[0].srvc == j.frames[0].srvc)
        }),
{
    let n0 = j.frames[0].srvc.data.name;
    let e0 = (n0, j.frames[0].srvc);
    let tt = with_outer(t, j);
    let (tp, jp, ap) = step_spec(tt, j, event);
    let (t2, j2, a) = step_spec(t, j, event);
    assert forall|i: int| 0 <= i < tt.len() implies #[trigger] tt[i].0 == tt[i].1.data.name by {
        if i < t.len() {
            assert(tt[i] == t[i]);
        }
    }
    lemma_step_starts_only(tt, j, event, rank);
    lemma_step_outside_sim(t, j, event, rank);
    if tp == t2.push(e0) {
        assert forall|i: int| #![trigger t2[i]] 0 <= i < t.len() implies t2[i].0 == t[i].0 && (t2[i].1 == t[i].1 || (
        !t[i].1.state.spec_is_active() && t2[i].1.state == ServiceState::Starting && t2[i].1.data == t[i].1.data)) by {
            assert(t2[i] == tp[i]);
            assert(tt[i] == t[i]);
        }
        assert(starts_only(t, t2));
        assert forall|i: int| 0 <= i < t2.len() implies #[trigger] t2[i].0 == t2[i].1.data.name by {
            assert(t2[i] == tp[i]);
        }
        if j2.frames.len() > 0 {
            assert(with_outer(t2, j2) == tp);
            assert forall|i: int| 0 <= i < t.len() implies #[trigger] t[i].0 == t2[i].0 by {
                assert(t2[i] == tp[i]);
            }
            lemma_index_of_same_keys(t, t2, n0);
        }
    }
}

/// A start begun on an inactive service that the table does not hold,
/// whose dependencies rank below it in a table whose dependencies have no
/// cycle, is fresh outside the table.
pub proof fn lemma_begin_outside(t: TableView, s: ServiceView, reason: StartReason, rank: spec_fn(Seq<char>) -> nat)
    requires
        lookup(t, s.data.name) is None,
        !s.state.spec_is_active(),
        !(s.state is Pending),
        ranked(t, rank),
        forall|m: int| 0 <= m < s.data.depends.len() ==> rank(#[trigger] s.data.depends[m]) < rank(s.data.name),
    ensures
        job_wf(begin_spec(s, reason)),
        fresh_outside(t, begin_spec(s, reason), rank),
{
    let j = begin_spec(s, reason);
    let e = (s.data.name, s);
    let tt = with_outer(t, j);
    lemma_begin_inv(t, s, reason);
    assert(tt == t.push(e));
    lemma_push_absent(t, e, s.data.name, s);
    assert forall|k: Seq<char>, m: int|
        #![trigger lookup(tt, k).unwrap().data.depends[m]]
        lookup(tt, k) is Some && 0 <= m < lookup(tt, k).unwrap().data.depends.len() implies rank(
        lookup(tt, k).unwrap().data.depends[m],
    ) < rank(k) by {
        if k != s.data.name {
            lemma_push_absent(t, e, k, s);
            assert(lookup(t, k).unwrap().data.depends[m] == lookup(tt, k).unwrap().data.depends[m]);
        } else {
            assert(lookup(tt, k).unwrap() == s);
        }
    }
}


// ---------------------------------------------------------------------------
// A start whose spawns succeed, in a table that knows every dependency
// ---------------------------------------------------------------------------

/// Every dependency of every service has an entry.
pub open spec fn deps_known(t: TableView) -> bool {
    forall|k: Seq<char>, m: int|
        #![trigger lookup(t, k).unwrap().data.depends[m]]
        lookup(t, k) is Some && 0 <= m < lookup(t, k).unwrap().data.depends.len() ==> lookup(
            t,
            lookup(t, k).unwrap().data.depends[m],
        ) is Some
}

/// No service waits to be executed.
pub open spec fn none_pending(t: TableView) -> bool {
    forall|i: int| 0 <= i < t.len() ==> !((#[trigger] t[i]).1.state is Pending)
}

/// Every active service has all its dependencies active.
pub open spec fn up_closed(t: TableView) -> bool {
    forall|k: Seq<char>, m: int|
        #![trigger lookup(t, k).unwrap().data.depends[m]]
        lookup(t, k) is Some && lookup(t, k).unwrap().state.spec_is_active() && 0 <= m < lookup(
            t,
            k,
        ).unwrap().data.depends.len() ==> (lookup(t, lookup(t, k).unwrap().data.depends[m]) matches Some(d)
            && d.state.spec_is_active())
}

/// The outcome that a transition of `j` is given when every spawn succeeds
/// with process id `pid`.
pub open spec fn ok_event(j: JobView, pid: u32) -> Option<SpawnOutcome> {
    if j.frames.len() > 0 && j.frames.last().waiting {
        Some(SpawnOutcome::Spawned(pid))
    } else {
        None
    }
}

/// No service under way has seen a dependency fail.
pub open spec fn frames_ok(j: JobView) -> bool {
    forall|i: int| 0 <= i < j.frames.len() ==> (#[trigger] j.frames[i]).ok
}

/// A start under way in a table that knows every dependency, has no cycle
/// among them and no pending service, and in which every active service
/// has its dependencies active; no service under way has seen a failure.
pub open spec fn start_good(t: TableView, j: JobView, rank: spec_fn(Seq<char>) -> nat, width: nat) -> bool {
    &&& j.frames.len() > 0
    &&& job_wf(j)
    &&& job_inv(t, j)
    &&& table_named(t)
    &&& ranked(t, rank)
    &&& width_bounded(t, width)
    &&& frames_fresh(t, j, rank)
    &&& deps_known(t)
    &&& none_pending(t)
    &&& up_closed(t)
    &&& frames_ok(j)
}

/// A table that only started services still knows every dependency and
/// has no pending service.
pub proof fn lemma_starts_only_known(t: TableView, u: TableView)
    requires
        starts_only(t, u),
        deps_known(t),
        none_pending(t),
    ensures
        deps_known(u),
        none_pending(u),
{
    assert forall|k: Seq<char>, m: int|
        #![trigger lookup(u, k).unwrap().data.depends[m]]
        lookup(u, k) is Some && 0 <= m < lookup(u, k).unwrap().data.depends.len() implies lookup(
        u,
        lookup(u, k).unwrap().data.depends[m],
    ) is Some by {
        lemma_starts_only_lookup(t, u, k);
        let d = lookup(u, k).unwrap().data.depends[m];
        assert(lookup(t, k).unwrap().data.depends[m] == d);
        lemma_starts_only_lookup(t, u, d);
    }
    assert forall|i: int| 0 <= i < u.len() implies !((#[trigger] u[i]).1.state is Pending) by {
        assert(!(t[i].1.state is Pending));
    }
}

/// Storing an active service whose dependencies are all active keeps every
/// active service's dependencies active.
proof fn lemma_up_closed_insert(t: TableView, n: Seq<char>, s: ServiceView)
    requires
        up_closed(t),
        s.state.spec_is_active(),
        deps_up(t, s.data.depends, s.data.depends.len()),
    ensures
        up_closed(table_insert(t, n, s)),
{
    let u = table_insert(t, n, s);
    lemma_insert_active(t, n, s);
    assert forall|k: Seq<char>, m: int|
        #![trigger lookup(u, k).unwrap().data.depends[m]]
        lookup(u, k) is Some && lookup(u, k).unwrap().state.spec_is_active() && 0 <= m < lookup(
            u,
            k,
        ).unwrap().data.depends.len() implies (lookup(u, lookup(u, k).unwrap().data.depends[m]) matches Some(d)
        && d.state.spec_is_active()) by {
        lemma_lookup_insert(t, n, s, k);
        let d = lookup(u, k).unwrap().data.depends[m];
        if k != n {
            assert(lookup(t, k).unwrap().data.depends[m] == d);
        } else {
            assert(lookup(t, s.data.depends[m]) matches Some(x) && x.state.spec_is_active());
        }
        if lookup(u, d) != lookup(t, d) {
        }
    }
}

/// The innermost frame, which has seen no failure, ends with its service
/// started.
proof fn lemma_good_finish_started(t: TableView, j: JobView, s: ServiceView)
    requires
        j.frames.len() > 0,
        job_wf(j),
        job_inv(t, j),
        up_closed(t),
        frames_ok(j),
        s.state.spec_is_active(),
        s.data == j.frames.last().srvc.data,
        j.frames.last().next == deps_of(j.frames.last()).len(),
    ensures
        ({
            let t1 = table_insert(t, s.data.name, s);
            let (t2, j2, a) = finish_frame(t1, j.frames.drop_last(), s, StartResult::Success);
            &&& up_closed(t2)
            &&& frames_ok(j2)
            &&& (j2.frames.len() > 0 ==> j2.frames[0].srvc == j.frames[0].srvc)
            &&& (j2.frames.len() == 0 ==> (lookup(t2, j.frames[0].srvc.data.name) matches Some(v)
                && v.state.spec_is_active()))
        }),
{
    let top = j.frames.len() - 1;
    let f = j.frames.last();
    let rest = j.frames.drop_last();
    assert(f == j.frames[top]);
    assert(f.ok);
    assert(deps_up(t, deps_of(f), f.next));
    let t1 = table_insert(t, s.data.name, s);
    lemma_up_closed_insert(t, s.data.name, s);
    lemma_lookup_insert(t, s.data.name, s, s.data.name);
    let (t2, j2, a) = finish_frame(t1, rest, s, StartResult::Success);
    if rest.len() > 0 {
        lemma_insert_same(t1, s.data.name, s);
        assert(rest[0] == j.frames[0]);
        assert forall|i: int| 0 <= i < j2.frames.len() implies (#[trigger] j2.frames[i]).ok by {
            assert(rest[i] == j.frames[i]);
            assert(j.frames[i].ok);
        }
    }
}

/// Every transition of a start whose spawns succeed, in a table that knows
/// every dependency, has no cycle among them and no pending service, lowers
/// the start's measure, only starts services, and keeps all of this true;
/// and when the start is over, its service is active.
pub proof fn lemma_step_good(t: TableView, j: JobView, pid: u32, rank: spec_fn(Seq<char>) -> nat, width: nat)
    requires
        start_good(t, j, rank, width),
    ensures
        ({
            let (t2, j2, a) = step_spec(t, j, ok_event(j, pid));
            &&& start_measure(width, rank, j2) < start_measure(width, rank, j)
            &&& starts_only(t, t2)
            &&& grows_active(t, t2)
            &&& table_named(t2)
            &&& ranked(t2, rank)
            &&& width_bounded(t2, width)
            &&& deps_known(t2)
            &&& none_pending(t2)
            &&& up_closed(t2)
            &&& (j2.frames.len() == 0 <==> a is Done)
            &&& (j2.frames.len() > 0 ==> start_good(t2, j2, rank, width) && j2.frames[0].srvc.data.name
                == j.frames[0].srvc.data.name)
            &&& (j2.frames.len() == 0 ==> (lookup(t2, j.frames[0].srvc.data.name) matches Some(v)
                && v.state.spec_is_active()))
        }),
{
    let ev = ok_event(j, pid);
    let (t2, j2, a) = step_spec(t, j, ev);
    lemma_launch_after_dependencies(t, j, ev);
    lemma_step_starts_only(t, j, ev, rank);
    lemma_start_ends(t, j, ev, rank, width);
    lemma_starts_only_known(t, t2);
    let top = j.frames.len() - 1;
    let f = j.frames.last();
    assert(f == j.frames[top]);
    assert(f.ok);
    if top > 0 {
        assert(j.frames.drop_last()[0] == j.frames[0]);
    }
    if f.waiting {
        let s = started(f.srvc, f.reason, Some(pid));
        lemma_good_finish_started(t, j, s);
    } else if f.next < deps_of(f).len() {
        let d = deps_of(f)[f.next as int];
        assert(lookup(t, f.srvc.data.name).unwrap().data == f.srvc.data);
        assert(lookup(t, lookup(t, f.srvc.data.name).unwrap().data.depends[f.next as int]) is Some);
        let dep = lookup(t, d).unwrap();
        lemma_index_of(t, d);
        assert(t[index_of(t, d)].1 == dep);
        assert(!(dep.state is Pending));
        lemma_named_lookup(t, d);
        if dep.state.spec_is_active() {
            lemma_insert_same(t, d, dep);
        }
        assert forall|i: int| 0 <= i < j2.frames.len() implies (#[trigger] j2.frames[i]).ok by {
            if i < top {
                assert(j2.frames[i] == j.frames[i]);
            } else if i == top {
                assert(j2.frames[i].ok == f.ok);
            }
        }
    } else if words(f.srvc.data.command).len() > 0 {
        assert forall|i: int| 0 <= i < j2.frames.len() implies (#[trigger] j2.frames[i]).ok by {
            if i < top {
                assert(j2.frames[i] == j.frames[i]);
            }
        }
    } else {
        let s = started(f.srvc, f.reason, f.srvc.pid);
        lemma_good_finish_started(t, j, s);
    }
}

} // verus!
