//! Bringing up every enabled service at boot.
//!
//! Start-up goes in rounds: each round tries to start every enabled service
//! in table order, then compares the states with those before the round.
//! It ends when every enabled service is active, or when a round changed
//! nothing (a deadlock among the dependencies). Like starting one service,
//! it is a state machine that hands each spawn to the caller.
use vstd::prelude::*;

use crate::deps::TableView;
use crate::service::{Service, ServiceState, StartReason};
use crate::start::{
    begin_spec, deps_of, deps_up, grows_active, job_inv, job_wf, lemma_begin_inv, lemma_grows_refl,
    lemma_launch_after_dependencies, step, step_spec, table_named, frames_fresh, ranked, starts_only,
    lemma_starts_only_refl, lemma_step_starts_only, lemma_begin_fresh, lemma_named_lookup, JobView, NoticeView, SpawnOutcome,
    SpawnRequest, StartJob, StartNotice, StartStep, StepView,
};
use crate::table::{keys_distinct, lookup, NameMap};

verus! {

/// What the caller has to do after a transition of start-up.
#[derive(Debug, Clone)]
pub enum StartupStep {
    /// Nothing; call `step_startup` again.
    Continue,
    /// Spawn this process and report the outcome to the next step.
    Spawn(SpawnRequest),
    /// Take note of this about the start under way; call again.
    Notice(StartNotice),
    /// A round ended; these services changed state (name and new state).
    Progress(Vec<(String, ServiceState)>),
    /// A round changed nothing; start-up gives up. These services are not active.
    Deadlock(Vec<Service>),
    /// Start-up is over; nothing is left to do.
    Complete,
}

/// The model of `StartupStep`.
pub enum StartupStepView {
    Continue,
    Spawn(Seq<char>, Seq<Seq<char>>),
    Notice(NoticeView),
    Progress(Seq<(Seq<char>, ServiceState)>),
    Deadlock(Seq<crate::service::ServiceView>),
    Complete,
}

impl View for StartupStep {
    type V = StartupStepView;

    open spec fn view(&self) -> StartupStepView {
        match self {
            StartupStep::Continue => StartupStepView::Continue,
            StartupStep::Spawn(r) => StartupStepView::Spawn(r.program@, r.args.deep_view()),
            StartupStep::Notice(n) => StartupStepView::Notice(n@),
            StartupStep::Progress(c) => StartupStepView::Progress(
                state_entries(c@),
            ),
            StartupStep::Deadlock(n) => StartupStepView::Deadlock(n.deep_view()),
            StartupStep::Complete => StartupStepView::Complete,
        }
    }
}

/// The state of start-up.
#[derive(Debug, Clone)]
pub struct StartupRun {
    over: bool,
    in_round: bool,
    /// The states at the beginning of the round.
    before: Vec<(String, ServiceState)>,
    /// The names to go through in this round.
    names: Vec<String>,
    next: usize,
    /// The start under way, if any.
    job: Option<StartJob>,
}

/// The model of start-up.
pub struct StartupView {
    pub over: bool,
    pub in_round: bool,
    pub before: Seq<(Seq<char>, ServiceState)>,
    pub names: Seq<Seq<char>>,
    pub next: nat,
    pub job: Option<JobView>,
}

impl View for StartupRun {
    type V = StartupView;

    closed spec fn view(&self) -> StartupView {
        StartupView {
            over: self.over,
            in_round: self.in_round,
            before: state_entries(self.before@),
            names: self.names.deep_view(),
            next: self.next as nat,
            job: match self.job {
                Some(j) => Some(j@),
                None => None,
            },
        }
    }
}

/// The model of a list of names with states.
pub open spec fn state_entries(v: Seq<(String, ServiceState)>) -> Seq<(Seq<char>, ServiceState)> {
    v.map_values(|e: (String, ServiceState)| (e.0@, e.1))
}

// ---------------------------------------------------------------------------
// The transition relation
// ---------------------------------------------------------------------------

/// Every enabled service is active.
pub open spec fn all_up(t: TableView) -> bool {
    forall|i: int|
        0 <= i < t.len() ==> (#[trigger] t[i]).1.state.spec_is_active() || !t[i].1.data.enabled
}

/// The state of each service.
pub open spec fn snapshot(t: TableView) -> Seq<(Seq<char>, ServiceState)> {
    t.map_values(|e: (Seq<char>, crate::service::ServiceView)| (e.0, e.1.state))
}

/// The names of the services.
pub open spec fn names(t: TableView) -> Seq<Seq<char>> {
    t.map_values(|e: (Seq<char>, crate::service::ServiceView)| e.0)
}

/// The services, in table order, whose state differs from `before` or that
/// `before` does not know, with their state.
pub open spec fn changes(before: Seq<(Seq<char>, ServiceState)>, t: TableView) -> Seq<(Seq<char>, ServiceState)>
    decreases t.len(),
{
    if t.len() == 0 {
        seq![]
    } else {
        let c = changes(before, t.drop_last());
        let e = t.last();
        if lookup(before, e.0) == Some(e.1.state) {
            c
        } else {
            c.push((e.0, e.1.state))
        }
    }
}

/// The services that are not active.
pub open spec fn inactive_services(t: TableView) -> Seq<crate::service::ServiceView>
    decreases t.len(),
{
    if t.len() == 0 {
        seq![]
    } else {
        let c = inactive_services(t.drop_last());
        if t.last().1.state.spec_is_active() {
            c
        } else {
            c.push(t.last().1)
        }
    }
}

/// Start-up is well formed.
pub open spec fn startup_wf(r: StartupView) -> bool {
    &&& r.next <= r.names.len()
    &&& r.over ==> !r.in_round
    &&& r.job is Some ==> r.in_round && r.next < r.names.len() && job_wf(r.job.unwrap())
}

/// One transition of start-up in table `t`, given the outcome of the
/// requested spawn, if one was requested.
pub open spec fn startup_step_spec(t: TableView, r: StartupView, event: Option<SpawnOutcome>) -> (
    TableView,
    StartupView,
    StartupStepView,
) {
    if r.over {
        (t, r, StartupStepView::Complete)
    } else if !r.in_round {
        if all_up(t) {
            (t, StartupView { over: true, ..r }, StartupStepView::Complete)
        } else {
            (
                t,
                StartupView {
                    over: false,
                    in_round: true,
                    before: snapshot(t),
                    names: names(t),
                    next: 0,
                    job: None,
                },
                StartupStepView::Continue,
            )
        }
    } else if r.job is Some {
        let (t2, j2, a) = step_spec(t, r.job.unwrap(), event);
        match a {
            StepView::Done(_) => (t2, StartupView { job: None, next: r.next + 1, ..r }, StartupStepView::Continue),
            StepView::Continue => (t2, StartupView { job: Some(j2), ..r }, StartupStepView::Continue),
            StepView::Notice(n) => (t2, StartupView { job: Some(j2), ..r }, StartupStepView::Notice(n)),
            StepView::Spawn(p, args) => (
                t2,
                StartupView { job: Some(j2), ..r },
                StartupStepView::Spawn(p, args),
            ),
        }
    } else if r.next < r.names.len() {
        match lookup(t, r.names[r.next as int]) {
            Some(s) => if s.data.enabled {
                (t, StartupView { job: Some(begin_spec(s, StartReason::Enabled)), ..r }, StartupStepView::Continue)
            } else {
                (t, StartupView { next: r.next + 1, ..r }, StartupStepView::Continue)
            },
            None => (t, StartupView { next: r.next + 1, ..r }, StartupStepView::Continue),
        }
    } else if changes(r.before, t).len() == 0 {
        (t, StartupView { over: true, in_round: false, ..r }, StartupStepView::Deadlock(inactive_services(t)))
    } else {
        (t, StartupView { in_round: false, ..r }, StartupStepView::Progress(changes(r.before, t)))
    }
}

// ---------------------------------------------------------------------------
// The executable machine
// ---------------------------------------------------------------------------

impl StartupRun {
    /// Start-up is well formed.
    pub open spec fn wf(&self) -> bool {
        startup_wf(self@)
    }

    /// Start-up before its first step.
    pub fn new() -> (r: StartupRun)
        ensures
            r@ == (StartupView {
                over: false,
                in_round: false,
                before: seq![],
                names: seq![],
                next: 0,
                job: None,
            }),
            r.wf(),
    {
        let r = StartupRun {
            over: false,
            in_round: false,
            before: Vec::new(),
            names: Vec::new(),
            next: 0,
            job: None,
        };
        assert(r@.before =~= seq![]);
        assert(r@.names =~= seq![]);
        r
    }
}

fn all_up_exec(services: &NameMap<Service>) -> (r: bool)
    ensures
        r == all_up(services@),
{
    let mut i: usize = 0;
    while i < services.len()
        invariant
            i <= services@.len(),
            forall|j: int| 0 <= j < i ==> (#[trigger] services@[j]).1.state.spec_is_active() || !services@[j].1.data.enabled,
        decreases services@.len() - i,
    {
        let s = services.value_at(i);
        if !(s.state.is_active() || !s.data.enabled) {
            return false;
        }
        i = i + 1;
    }
    true
}

fn snapshot_exec(services: &NameMap<Service>) -> (r: (Vec<(String, ServiceState)>, Vec<String>))
    ensures
        state_entries(r.0@) == snapshot(services@),
        r.1.deep_view() == names(services@),
{
    let mut states: Vec<(String, ServiceState)> = Vec::new();
    let mut keys: Vec<String> = Vec::new();
    let ghost t = services@;
    let mut i: usize = 0;
    while i < services.len()
        invariant
            t == services@,
            i <= t.len(),
            state_entries(states@) =~= snapshot(t).take(i as int),
            keys.deep_view() =~= names(t).take(i as int),
        decreases t.len() - i,
    {
        let k = services.key_at(i);
        let s = services.value_at(i);
        let ghost st0 = state_entries(states@);
        let ghost ks0 = keys.deep_view();
        states.push((k.clone(), s.state));
        keys.push(k.clone());
        proof {
            assert(snapshot(t).take(i + 1) =~= snapshot(t).take(i as int).push((k@, s.state)));
            assert(names(t).take(i + 1) =~= names(t).take(i as int).push(k@));
            assert(state_entries(states@) =~= st0.push((k@, s.state)));
            assert(keys.deep_view() =~= ks0.push(k@));
        }
        i = i + 1;
    }
    (states, keys)
}

proof fn lemma_changes_take(before: Seq<(Seq<char>, ServiceState)>, t: TableView, i: int)
    requires
        0 <= i < t.len(),
    ensures
        changes(before, t.take(i + 1)) == (if lookup(before, t[i].0) == Some(t[i].1.state) {
            changes(before, t.take(i))
        } else {
            changes(before, t.take(i)).push((t[i].0, t[i].1.state))
        }),
        inactive_services(t.take(i + 1)) == (if t[i].1.state.spec_is_active() {
            inactive_services(t.take(i))
        } else {
            inactive_services(t.take(i)).push(t[i].1)
        }),
{
    assert(t.take(i + 1).drop_last() =~= t.take(i));
}

fn state_in(before: &Vec<(String, ServiceState)>, key: &String) -> (r: Option<ServiceState>)
    ensures
        r == lookup(state_entries(before@), key@),
{
    let ghost b = state_entries(before@);
    let mut i: usize = 0;
    while i < before.len()
        invariant
            b == state_entries(before@),
            i <= before.len(),
            forall|j: int| 0 <= j < i ==> b[j].0 != key@,
        decreases before.len() - i,
    {
        if before[i].0 == *key {
            proof {
                crate::table::lemma_index_of_at(b, key@, i as int);
            }
            return Some(before[i].1);
        }
        i = i + 1;
    }
    proof {
        crate::table::lemma_index_of(b, key@);
        if crate::table::has_key(b, key@) {
            let w = choose|j: int| 0 <= j < b.len() && #[trigger] b[j].0 == key@;
            assert(b[w].0 != key@);
        }
    }
    None
}

fn round_end(services: &NameMap<Service>, before: &Vec<(String, ServiceState)>) -> (r: (
    Vec<(String, ServiceState)>,
    Vec<Service>,
))
    ensures
        state_entries(r.0@) == changes(
            state_entries(before@),
            services@,
        ),
        r.1.deep_view() == inactive_services(services@),
{
    let ghost b = state_entries(before@);
    let ghost t = services@;
    let mut changed: Vec<(String, ServiceState)> = Vec::new();
    let mut down: Vec<Service> = Vec::new();
    let mut i: usize = 0;
    while i < services.len()
        invariant
            t == services@,
            b == state_entries(before@),
            i <= t.len(),
            state_entries(changed@) =~= changes(b, t.take(i as int)),
            down.deep_view() =~= inactive_services(t.take(i as int)),
        decreases t.len() - i,
    {
        let k = services.key_at(i);
        let s = services.value_at(i);
        proof {
            lemma_changes_take(b, t, i as int);
        }
        let old_state = state_in(before, k);
        let same = match old_state {
            Some(st) => st == s.state,
            None => false,
        };
        assert(same == (lookup(b, t[i as int].0) == Some(t[i as int].1.state)));
        let ghost c0 = state_entries(changed@);
        if !same {
            changed.push((k.clone(), s.state));
            assert(state_entries(changed@) =~= c0.push((k@, s.state)));
        }
        if !s.state.is_active() {
            let ghost d0 = down.deep_view();
            down.push(s.duplicate());
            assert(down.deep_view() =~= d0.push(t[i as int].1));
        }
        i = i + 1;
    }
    proof {
        assert(t.take(t.len() as int) =~= t);
    }
    (changed, down)
}

/// One transition of start-up on the table `services`.
pub(crate) fn step_startup(
    services: &mut NameMap<Service>,
    run: &mut StartupRun,
    event: Option<SpawnOutcome>,
) -> (r: StartupStep)
    requires
        old(run).wf(),
    ensures
        final(run).wf(),
        (final(services)@, final(run)@, r@) == startup_step_spec(old(services)@, old(run)@, event),
        keys_distinct(old(services)@) ==> keys_distinct(final(services)@),
{
    let ghost r0 = run@;
    if run.over {
        return StartupStep::Complete;
    }
    if !run.in_round {
        if all_up_exec(services) {
            run.over = true;
            return StartupStep::Complete;
        }
        let (states, keys) = snapshot_exec(services);
        run.before = states;
        run.names = keys;
        run.next = 0;
        run.job = None;
        run.in_round = true;
        return StartupStep::Continue;
    }
    if run.job.is_some() {
        let mut j = run.job.take().unwrap();
        let a = step(services, &mut j, event);
        match a {
            StartStep::Done(_) => {
                assert(run.next < run.names@.len());
                assert(run.next < run.names.len());
                run.next = run.next + 1;
                StartupStep::Continue
            },
            StartStep::Continue => {
                run.job = Some(j);
                StartupStep::Continue
            },
            StartStep::Notice(n) => {
                run.job = Some(j);
                StartupStep::Notice(n)
            },
            StartStep::Spawn(req) => {
                run.job = Some(j);
                StartupStep::Spawn(req)
            },
        }
    } else if run.next < run.names.len() {
        match services.get(&run.names[run.next]) {
            Some(s) => {
                if s.data.enabled {
                    let j = StartJob::begin(s.duplicate(), StartReason::Enabled);
                    run.job = Some(j);
                } else {
                    run.next = run.next + 1;
                }
            },
            None => {
                run.next = run.next + 1;
            },
        }
        StartupStep::Continue
    } else {
        let (changed, down) = round_end(services, &run.before);
        if changed.len() == 0 {
            run.over = true;
            run.in_round = false;
            StartupStep::Deadlock(down)
        } else {
            run.in_round = false;
            StartupStep::Progress(changed)
        }
    }
}

} // verus!

verus! {

/// Every service whose state differs from its state in `b` is active.
pub open spec fn changed_are_active(b: Seq<(Seq<char>, ServiceState)>, t: TableView) -> bool {
    forall|k: Seq<char>|
        #[trigger] lookup(t, k) is Some && lookup(b, k) != Some(lookup(t, k).unwrap().state) ==> lookup(
            t,
            k,
        ).unwrap().state.spec_is_active()
}

/// The start under way, if any, keeps its invariant in table `t`, and
/// during a round every service that changed state since the round began
/// is active.
pub open spec fn startup_inv(t: TableView, r: StartupView) -> bool {
    &&& r.job is Some ==> job_inv(t, r.job.unwrap())
    &&& r.in_round ==> changed_are_active(r.before, t)
}

proof fn lemma_snapshot_lookup(t: TableView, k: Seq<char>)
    ensures
        lookup(snapshot(t), k) == (match lookup(t, k) {
            Some(v) => Some(v.state),
            None => None::<ServiceState>,
        }),
{
    crate::table::lemma_index_of_same_keys(t, snapshot(t), k);
    crate::table::lemma_index_of(t, k);
}

proof fn lemma_changed_are_active_grows(b: Seq<(Seq<char>, ServiceState)>, t: TableView, u: TableView)
    requires
        changed_are_active(b, t),
        grows_active(t, u),
    ensures
        changed_are_active(b, u),
{
    assert forall|k: Seq<char>| #[trigger] lookup(u, k) is Some && lookup(b, k) != Some(lookup(u, k).unwrap().state)
        implies lookup(u, k).unwrap().state.spec_is_active() by {
        if lookup(u, k) == lookup(t, k) {
            assert(lookup(t, k) is Some && lookup(b, k) != Some(lookup(t, k).unwrap().state));
        }
    }
}

proof fn lemma_changes_members(b: Seq<(Seq<char>, ServiceState)>, t: TableView, i: int)
    requires
        0 <= i < changes(b, t).len(),
    ensures
        exists|j: int|
            0 <= j < t.len() && changes(b, t)[i] == (#[trigger] t[j].0, t[j].1.state) && lookup(b, t[j].0)
                != Some(t[j].1.state),
    decreases t.len(),
{
    let s = t.drop_last();
    let c = changes(b, s);
    if i < c.len() {
        lemma_changes_members(b, s, i);
        let j = choose|j: int|
            0 <= j < s.len() && c[i] == (#[trigger] s[j].0, s[j].1.state) && lookup(b, s[j].0) != Some(s[j].1.state);
        assert(t[j] == s[j]);
    } else {
        assert(t[t.len() - 1] == t.last());
    }
}

/// In a table with distinct names where every changed service is active,
/// every service that `changes` reports is active.
proof fn lemma_changes_active(b: Seq<(Seq<char>, ServiceState)>, t: TableView)
    requires
        keys_distinct(t),
        changed_are_active(b, t),
    ensures
        forall|i: int| 0 <= i < changes(b, t).len() ==> (#[trigger] changes(b, t)[i]).1.spec_is_active(),
{
    assert forall|i: int| 0 <= i < changes(b, t).len() implies (#[trigger] changes(b, t)[i]).1.spec_is_active() by {
        lemma_changes_members(b, t, i);
        let j = choose|j: int|
            0 <= j < t.len() && changes(b, t)[i] == (#[trigger] t[j].0, t[j].1.state) && lookup(b, t[j].0)
                != Some(t[j].1.state);
        crate::table::lemma_index_of_at(t, t[j].0, j);
        assert(lookup(t, t[j].0) == Some(t[j].1));
    }
}

/// Every transition of start-up keeps its invariant and never makes an
/// active service inactive; a spawn is requested only for a service whose
/// dependencies are all active; start-up reports completion only once every
/// enabled service is active (or after it gave up); and a round reported as
/// progress changed the state of at least one service.
pub proof fn lemma_startup_step(t: TableView, r: StartupView, event: Option<SpawnOutcome>)
    requires
        startup_wf(r),
        startup_inv(t, r),
        table_named(t),
        keys_distinct(t),
    ensures
        ({
            let (t2, r2, a) = startup_step_spec(t, r, event);
            &&& startup_wf(r2)
            &&& startup_inv(t2, r2)
            &&& table_named(t2)
            &&& grows_active(t, t2)
            &&& (a is Complete ==> all_up(t2) || r.over)
            &&& (a is Spawn ==> r2.job is Some && r2.job.unwrap().frames.len() > 0 && deps_up(
                t2,
                deps_of(r2.job.unwrap().frames.last()),
                deps_of(r2.job.unwrap().frames.last()).len(),
            ))
            &&& (a matches StartupStepView::Progress(c) ==> c.len() > 0 && forall|i: int|
                0 <= i < c.len() ==> (#[trigger] c[i]).1.spec_is_active())
        }),
{
    let (t2, r2, a) = startup_step_spec(t, r, event);
    if r.over {
        lemma_grows_refl(t);
    } else if !r.in_round {
        lemma_grows_refl(t);
        assert forall|k: Seq<char>| #[trigger] lookup(t, k) is Some && lookup(snapshot(t), k) != Some(lookup(t, k).unwrap().state)
            implies lookup(t, k).unwrap().state.spec_is_active() by {
            lemma_snapshot_lookup(t, k);
        }
    } else if r.job is Some {
        lemma_launch_after_dependencies(t, r.job.unwrap(), event);
        lemma_changed_are_active_grows(r.before, t, t2);
    } else if r.next < r.names.len() {
        lemma_grows_refl(t);
        if let Some(s) = lookup(t, r.names[r.next as int]) {
            lemma_begin_inv(t, s, StartReason::Enabled);
        }
    } else {
        lemma_grows_refl(t);
        lemma_changes_active(r.before, t);
    }
}

} // verus!

verus! {

// ---------------------------------------------------------------------------
// Start-up ends: each round that reports progress starts more services
// ---------------------------------------------------------------------------

/// How many of the services are active.
pub open spec fn count_active(s: Seq<(Seq<char>, ServiceState)>) -> nat
    decreases s.len(),
{
    if s.len() == 0 {
        0
    } else {
        count_active(s.drop_last()) + if s.last().1.spec_is_active() {
            1nat
        } else {
            0nat
        }
    }
}

/// Since the round began with the states `b`, the entries stayed where they
/// were and each kept its state or went from inactive to starting.
pub open spec fn round_starts_only(b: Seq<(Seq<char>, ServiceState)>, t: TableView) -> bool {
    &&& b.len() == t.len()
    &&& forall|i: int|
        #![trigger t[i]]
        0 <= i < t.len() ==> b[i].0 == t[i].0 && (t[i].1.state == b[i].1 || (!b[i].1.spec_is_active()
            && t[i].1.state == ServiceState::Starting))
}

/// The start under way keeps its frames fresh, and the round started only.
pub open spec fn startup_fresh(t: TableView, r: StartupView, rank: spec_fn(Seq<char>) -> nat) -> bool {
    &&& r.job is Some ==> frames_fresh(t, r.job.unwrap(), rank)
    &&& r.in_round ==> round_starts_only(r.before, t)
}

pub proof fn lemma_count_bound(s: Seq<(Seq<char>, ServiceState)>)
    ensures
        count_active(s) <= s.len(),
    decreases s.len(),
{
    if s.len() > 0 {
        lemma_count_bound(s.drop_last());
    }
}

proof fn lemma_count_grows(b: Seq<(Seq<char>, ServiceState)>, s: Seq<(Seq<char>, ServiceState)>, w: int)
    requires
        b.len() == s.len(),
        forall|i: int| 0 <= i < s.len() && (#[trigger] b[i]).1.spec_is_active() ==> s[i].1.spec_is_active(),
    ensures
        count_active(b) <= count_active(s),
        0 <= w < s.len() && !b[w].1.spec_is_active() && s[w].1.spec_is_active() ==> count_active(b) < count_active(s),
    decreases s.len(),
{
    if s.len() > 0 {
        let n = s.len() - 1;
        assert forall|i: int| 0 <= i < s.drop_last().len() && (#[trigger] b.drop_last()[i]).1.spec_is_active() implies s.drop_last()[i].1.spec_is_active() by {
            assert(b.drop_last()[i] == b[i]);
        }
        lemma_count_grows(b.drop_last(), s.drop_last(), w);
        assert(b.last() == b[n]);
        if w < n && 0 <= w {
            assert(b.drop_last()[w] == b[w] && s.drop_last()[w] == s[w]);
        }
    }
}

proof fn lemma_round_progress(b: Seq<(Seq<char>, ServiceState)>, t: TableView)
    requires
        keys_distinct(t),
        round_starts_only(b, t),
        changes(b, t).len() > 0,
    ensures
        count_active(b) < count_active(snapshot(t)),
{
    lemma_changes_members(b, t, 0);
    let j = choose|j: int|
        0 <= j < t.len() && changes(b, t)[0] == (#[trigger] t[j].0, t[j].1.state) && lookup(b, t[j].0) != Some(t[j].1.state);
    assert(b[j].0 == t[j].0);
    assert forall|i: int| 0 <= i < t.len() implies #[trigger] t[i].0 == b[i].0 by {
        assert(b[i].0 == t[i].0);
    }
    assert forall|i: int| 0 <= i < j implies t[i].0 != t[j].0 by {
    }
    crate::table::lemma_index_of_at(t, t[j].0, j);
    crate::table::lemma_index_of_same_keys(t, b, t[j].0);
    assert(lookup(b, t[j].0) == Some(b[j].1));
    let s = snapshot(t);
    assert forall|i: int| 0 <= i < s.len() && (#[trigger] b[i]).1.spec_is_active() implies s[i].1.spec_is_active() by {
        assert(t[i].1.state == b[i].1 || (!b[i].1.spec_is_active() && t[i].1.state == ServiceState::Starting));
    }
    assert(t[j].1.state == ServiceState::Starting);
    lemma_count_grows(b, s, j);
}

/// Every transition of start-up, in a table whose entries stand under
/// their services' names, with distinct names and no dependency cycle,
/// changes only inactive entries into starting ones, keeps the number of
/// services, and whenever a round reports progress, more services are
/// active than when the round began. As no more services can be active than
/// there are, start-up reports progress at most once per service and then
/// ends, with completion or a deadlock.
pub proof fn lemma_startup_rounds(
    t: TableView,
    r: StartupView,
    event: Option<SpawnOutcome>,
    rank: spec_fn(Seq<char>) -> nat,
)
    requires
        startup_wf(r),
        table_named(t),
        keys_distinct(t),
        ranked(t, rank),
        startup_fresh(t, r, rank),
    ensures
        ({
            let (t2, r2, a) = startup_step_spec(t, r, event);
            &&& starts_only(t, t2)
            &&& t2.len() == t.len()
            &&& table_named(t2)
            &&& ranked(t2, rank)
            &&& startup_fresh(t2, r2, rank)
            &&& (a is Progress ==> count_active(r.before) < count_active(snapshot(t2)))
            &&& count_active(snapshot(t2)) <= t2.len()
        }),
{
    let (t2, r2, a) = startup_step_spec(t, r, event);
    lemma_count_bound(snapshot(t2));
    if r.over {
        lemma_starts_only_refl(t);
    } else if !r.in_round {
        lemma_starts_only_refl(t);
        assert forall|i: int| #![trigger t[i]] 0 <= i < t.len() implies snapshot(t)[i].0 == t[i].0 && (t[i].1.state
            == snapshot(t)[i].1 || (!snapshot(t)[i].1.spec_is_active() && t[i].1.state == ServiceState::Starting)) by {
        }
    } else if r.job is Some {
        let j = r.job.unwrap();
        lemma_step_starts_only(t, j, event, rank);
        let (t3, j3, a3) = step_spec(t, j, event);
        assert(t3 == t2);
        assert forall|i: int| #![trigger t2[i]] 0 <= i < t2.len() implies r.before[i].0 == t2[i].0 && (t2[i].1.state
            == r.before[i].1 || (!r.before[i].1.spec_is_active() && t2[i].1.state == ServiceState::Starting)) by {
            assert(t2[i].0 == t[i].0);
            assert(r.before[i].0 == t[i].0);
        }
    } else if r.next < r.names.len() {
        lemma_starts_only_refl(t);
        if let Some(s) = lookup(t, r.names[r.next as int]) {
            lemma_named_lookup(t, r.names[r.next as int]);
            lemma_begin_fresh(t, s, StartReason::Enabled, rank);
        }
    } else {
        lemma_starts_only_refl(t);
        if changes(r.before, t).len() > 0 {
            lemma_round_progress(r.before, t);
        }
    }
}

} // verus!

verus! {

use crate::start::{
    deps_known, none_pending, up_closed, ok_event, start_good, frames_ok, lemma_step_good, width_bounded,
    start_measure, new_frame,
};
use crate::table::{lemma_index_of, lemma_index_of_at, lemma_index_of_same_keys};

// ---------------------------------------------------------------------------
// Start-up brings every service up when every spawn succeeds
// ---------------------------------------------------------------------------

/// The outcome that a transition of start-up is given when every spawn
/// succeeds with process id `pid`.
pub open spec fn startup_event(r: StartupView, pid: u32) -> Option<SpawnOutcome> {
    match r.job {
        Some(j) => ok_event(j, pid),
        None => None,
    }
}

/// Table and start-up after `n` transitions in which every spawn succeeds.
pub open spec fn run_startup(t: TableView, r: StartupView, pid: u32, n: nat) -> (TableView, StartupView)
    decreases n,
{
    if n == 0 {
        (t, r)
    } else {
        let (t2, r2, a) = startup_step_spec(t, r, startup_event(r, pid));
        run_startup(t2, r2, pid, (n - 1) as nat)
    }
}

/// A table in which start-up can bring every enabled service up: entries
/// under their services' names, distinct names, no dependency cycle (by
/// `rank`), no service with more than `width` dependencies, every
/// dependency known, no pending service, and every active service with its
/// dependencies active.
pub open spec fn table_good(t: TableView, rank: spec_fn(Seq<char>) -> nat, width: nat) -> bool {
    &&& table_named(t)
    &&& keys_distinct(t)
    &&& ranked(t, rank)
    &&& width_bounded(t, width)
    &&& deps_known(t)
    &&& none_pending(t)
    &&& up_closed(t)
}

/// The start under way in a round: over at once with the service `name`
/// active, or under way and good, for `name`.
pub open spec fn job_ok(t: TableView, j: JobView, name: Seq<char>, rank: spec_fn(Seq<char>) -> nat, width: nat) -> bool {
    ||| (j.frames.len() == 0 && (lookup(t, name) matches Some(v) && v.state.spec_is_active()))
    ||| (start_good(t, j, rank, width) && j.frames[0].srvc.data.name == name)
}

/// A round under way in a good table: it goes through the names of the
/// table, some enabled service was inactive when it began, and every
/// enabled service that it went through is active.
pub open spec fn round_good(t: TableView, r: StartupView, rank: spec_fn(Seq<char>) -> nat, width: nat) -> bool {
    &&& table_good(t, rank, width)
    &&& !r.over
    &&& r.in_round
    &&& r.names == names(t)
    &&& r.next <= r.names.len()
    &&& round_starts_only(r.before, t)
    &&& exists|w: int| 0 <= w < t.len() && !r.before[w].1.spec_is_active() && (#[trigger] t[w]).1.data.enabled
    &&& forall|i: int| 0 <= i < r.next && (#[trigger] t[i]).1.data.enabled ==> t[i].1.state.spec_is_active()
    &&& r.job is Some ==> r.next < r.names.len() && job_ok(t, r.job.unwrap(), r.names[r.next as int], rank, width)
}

proof fn lemma_run_add(t: TableView, r: StartupView, pid: u32, n: nat, m: nat)
    ensures
        run_startup(t, r, pid, n + m) == run_startup(run_startup(t, r, pid, n).0, run_startup(t, r, pid, n).1, pid, m),
    decreases n,
{
    if n > 0 {
        let (t2, r2, a) = startup_step_spec(t, r, startup_event(r, pid));
        lemma_run_add(t2, r2, pid, (n - 1) as nat, m);
        assert((n + m - 1) as nat == ((n - 1) as nat + m) as nat);
    }
}

/// A table with distinct names keeps them, in the same places, when it only
/// starts services.
proof fn lemma_starts_only_names(t: TableView, u: TableView)
    requires
        starts_only(t, u),
        keys_distinct(t),
    ensures
        keys_distinct(u),
        names(u) == names(t),
{
    assert forall|i: int, j: int| 0 <= i < j < u.len() implies u[i].0 != u[j].0 by {
        assert(u[i].0 == t[i].0 && u[j].0 == t[j].0);
    }
    assert forall|i: int| 0 <= i < u.len() implies names(u)[i] == names(t)[i] by {
        assert(u[i].0 == t[i].0);
    }
    assert(names(u) =~= names(t));
}

/// In a table with distinct names, the entry at `i` is what its name finds.
proof fn lemma_lookup_at(t: TableView, i: int)
    requires
        keys_distinct(t),
        0 <= i < t.len(),
    ensures
        lookup(t, t[i].0) == Some(t[i].1),
{
    lemma_index_of_at(t, t[i].0, i);
}

/// A round that changed nothing left every service as `b` has it.
proof fn lemma_changes_empty(b: Seq<(Seq<char>, ServiceState)>, t: TableView)
    requires
        changes(b, t).len() == 0,
    ensures
        forall|i: int| 0 <= i < t.len() ==> lookup(b, (#[trigger] t[i]).0) == Some(t[i].1.state),
    decreases t.len(),
{
    if t.len() > 0 {
        lemma_changes_empty(b, t.drop_last());
        assert forall|i: int| 0 <= i < t.len() implies lookup(b, (#[trigger] t[i]).0) == Some(t[i].1.state) by {
            if i < t.len() - 1 {
                assert(t[i] == t.drop_last()[i]);
            }
        }
    }
}

/// A transition of a round in a good table keeps the round good, and lowers
/// (the names left, whether no start is under way, the start's measure).
proof fn lemma_round_step(t: TableView, r: StartupView, pid: u32, rank: spec_fn(Seq<char>) -> nat, width: nat)
    requires
        round_good(t, r, rank, width),
        !(r.job is None && r.next == r.names.len()),
    ensures
        ({
            let (t2, r2, a) = startup_step_spec(t, r, startup_event(r, pid));
            &&& round_good(t2, r2, rank, width)
            &&& r2.names.len() == r.names.len()
            &&& (r2.next > r.next || (r2.next == r.next && r.job is None && r2.job is Some) || (r2.next == r.next
                && r.job is Some && r2.job is Some && start_measure(width, rank, r2.job.unwrap()) < start_measure(
                width,
                rank,
                r.job.unwrap(),
            )))
        }),
{
    let (t2, r2, a) = startup_step_spec(t, r, startup_event(r, pid));
    let w = choose|w: int| 0 <= w < t.len() && !r.before[w].1.spec_is_active() && (#[trigger] t[w]).1.data.enabled;
    let k = r.next as int;
    if r.job is Some {
        let j = r.job.unwrap();
        assert(r.names[k] == t[k].0);
        lemma_lookup_at(t, k);
        if j.frames.len() == 0 {
            assert forall|i: int| 0 <= i < r2.next && (#[trigger] t2[i]).1.data.enabled implies t2[i].1.state.spec_is_active() by {
            }
            assert(exists|w: int| 0 <= w < t2.len() && !r2.before[w].1.spec_is_active() && (#[trigger] t2[w]).1.data.enabled);
        } else {
            lemma_step_good(t, j, pid, rank, width);
            let (t3, j3, a3) = step_spec(t, j, ok_event(j, pid));
            assert(t3 == t2);
            lemma_starts_only_names(t, t2);
            assert forall|i: int| #![trigger t2[i]] 0 <= i < t2.len() implies r2.before[i].0 == t2[i].0 && (t2[i].1.state
                == r2.before[i].1 || (!r2.before[i].1.spec_is_active() && t2[i].1.state == ServiceState::Starting)) by {
                assert(t2[i].0 == t[i].0);
                assert(r.before[i].0 == t[i].0);
            }
            assert(t2[w].1.data == t[w].1.data);
            assert(exists|w: int| 0 <= w < t2.len() && !r2.before[w].1.spec_is_active() && (#[trigger] t2[w]).1.data.enabled);
            assert forall|i: int| 0 <= i < r2.next && (#[trigger] t2[i]).1.data.enabled implies t2[i].1.state.spec_is_active() by {
                assert(t2[i].1 == t[i].1 || (!t[i].1.state.spec_is_active() && t2[i].1.data == t[i].1.data
                    && t2[i].1.state == ServiceState::Starting));
                if i == k {
                    lemma_lookup_at(t2, k);
                    assert(t2[k].0 == t[k].0);
                }
            }
        }
    } else {
        assert(r.names[k] == t[k].0);
        lemma_lookup_at(t, k);
        let s = t[k].1;
        assert(s.data.name == t[k].0);
        if s.data.enabled {
            let j = begin_spec(s, StartReason::Enabled);
            assert(!(s.state is Pending));
            lemma_begin_inv(t, s, StartReason::Enabled);
            lemma_begin_fresh(t, s, StartReason::Enabled, rank);
            if !s.state.spec_is_active() {
                assert(j.frames[0] == new_frame(s, StartReason::Enabled));
                assert(frames_ok(j));
            }
        }
    }
}

/// A round under way in a good table, driven with successful spawns, goes
/// through all its names.
proof fn lemma_round_live(t: TableView, r: StartupView, pid: u32, rank: spec_fn(Seq<char>) -> nat, width: nat) -> (n: nat)
    requires
        round_good(t, r, rank, width),
    ensures
        ({
            let (tn, rn) = run_startup(t, r, pid, n);
            &&& round_good(tn, rn, rank, width)
            &&& rn.job is None
            &&& rn.next == rn.names.len()
        }),
    decreases r.names.len() - r.next, (if r.job is None {
        1int
    } else {
        0int
    }), (match r.job {
        Some(j) => start_measure(width, rank, j) as int,
        None => 0int,
    }),
{
    if r.job is None && r.next == r.names.len() {
        0
    } else {
        let (t2, r2, a) = startup_step_spec(t, r, startup_event(r, pid));
        lemma_round_step(t, r, pid, rank, width);
        let n2 = lemma_round_live(t2, r2, pid, rank, width);
        assert(run_startup(t, r, pid, n2 + 1) == run_startup(t2, r2, pid, n2));
        n2 + 1
    }
}

/// Start-up, begun in a table whose entries stand under their services'
/// names, with distinct names, every dependency known, no dependency cycle,
/// no pending service, and every active service's dependencies active, and
/// driven with every spawn succeeding, is over after finitely many
/// transitions with every enabled service active, and every active service
/// with its dependencies active: every enabled service and its dependencies
/// come up, and start-up never gives up on a deadlock.
pub proof fn lemma_startup_completes(t: TableView, r: StartupView, pid: u32, rank: spec_fn(Seq<char>) -> nat, width: nat) -> (n: nat)
    requires
        !r.over,
        !r.in_round,
        table_good(t, rank, width),
    ensures
        ({
            let (tn, rn) = run_startup(t, r, pid, n);
            &&& rn.over
            &&& all_up(tn)
            &&& up_closed(tn)
        }),
{
    let (t1, r1, a1) = startup_step_spec(t, r, startup_event(r, pid));
    assert(run_startup(t, r, pid, 1) == run_startup(t1, r1, pid, 0));
    if all_up(t) {
        1
    } else {
        let w = choose|w: int| 0 <= w < t.len() && !((#[trigger] t[w]).1.state.spec_is_active() || !t[w].1.data.enabled);
        assert(snapshot(t)[w].1 == t[w].1.state);
        assert forall|i: int| #![trigger t[i]] 0 <= i < t.len() implies snapshot(t)[i].0 == t[i].0 && (t[i].1.state
            == snapshot(t)[i].1 || (!snapshot(t)[i].1.spec_is_active() && t[i].1.state == ServiceState::Starting)) by {
        }
        assert(round_good(t, r1, rank, width));
        let n1 = lemma_round_live(t, r1, pid, rank, width);
        let (t2, r2) = run_startup(t, r1, pid, n1);
        // the round ends with progress
        let (t3, r3, a3) = startup_step_spec(t2, r2, startup_event(r2, pid));
        let w2 = choose|w: int| 0 <= w < t2.len() && !r2.before[w].1.spec_is_active() && (#[trigger] t2[w]).1.data.enabled;
        assert(t2[w2].1.state.spec_is_active());
        if changes(r2.before, t2).len() == 0 {
            lemma_changes_empty(r2.before, t2);
            assert(lookup(r2.before, t2[w2].0) == Some(t2[w2].1.state));
            assert forall|i: int| 0 <= i < t2.len() implies #[trigger] t2[i].0 == r2.before[i].0 by {
                assert(r2.before[i].0 == t2[i].0);
            }
            lemma_index_of_at(t2, t2[w2].0, w2);
            lemma_index_of_same_keys(t2, r2.before, t2[w2].0);
            assert(false);
        }
        assert(all_up(t2)) by {
            assert forall|i: int| 0 <= i < t2.len() implies (#[trigger] t2[i]).1.state.spec_is_active() || !t2[i].1.data.enabled by {
                assert(r2.names.len() == t2.len());
            }
        }
        let (t4, r4, a4) = startup_step_spec(t3, r3, startup_event(r3, pid));
        assert(run_startup(t2, r2, pid, 2) == run_startup(t3, r3, pid, 1));
        assert(run_startup(t3, r3, pid, 1) == run_startup(t4, r4, pid, 0));
        lemma_run_add(t, r1, pid, n1, 2);
        assert(run_startup(t, r, pid, n1 + 3) == run_startup(t1, r1, pid, n1 + 2));
        n1 + 3
    }
}

} // verus!

verus! {

// ---------------------------------------------------------------------------
// A round tries every name, whatever the starts before gave
// ---------------------------------------------------------------------------

/// A round goes through the names of the table one by one, whatever the
/// outcomes of the spawns: no transition moves past more than one name; a
/// start that ends, whatever its result, moves on to the very next name and
/// the round goes on; the round ends only once every name was gone through;
/// and at each enabled service the round comes to, it begins its start.
pub proof fn lemma_round_order(t: TableView, r: StartupView, event: Option<SpawnOutcome>)
    requires
        startup_wf(r),
        r.in_round,
        !r.over,
    ensures
        ({
            let (t2, r2, a) = startup_step_spec(t, r, event);
            &&& r2.names == r.names
            &&& r2.before == r.before
            &&& r.next <= r2.next <= r.next + 1
            &&& (r.job is Some && r2.job is None ==> r2.next == r.next + 1 && r2.in_round && !r2.over)
            &&& (!r2.in_round || r2.over ==> r.next == r.names.len() && r.job is None)
            &&& (r.job is None && r.next < r.names.len() ==> (lookup(t, r.names[r.next as int]) matches Some(s)
                && s.data.enabled) == (r2.job is Some))
            &&& (r2.job is Some && r.job is None ==> r2.job == Some(
                begin_spec(lookup(t, r.names[r.next as int]).unwrap(), StartReason::Enabled),
            ) && r2.next == r.next)
        }),
{
}

} // verus!

verus! {

use crate::start::{lemma_start_ends, lemma_starts_only_lookup, lemma_deps_up_grows, lemma_grows_trans};

// ---------------------------------------------------------------------------
// A round brings up every service that can come up, whatever the others do
// ---------------------------------------------------------------------------

/// The outcome that a transition of start-up is given when the spawn of each
/// service succeeds, with process id `pid`, or fails as `succeeds` says of
/// its name.
pub open spec fn chosen_event(r: StartupView, succeeds: spec_fn(Seq<char>) -> bool, pid: u32) -> Option<SpawnOutcome> {
    match r.job {
        Some(j) => if j.frames.len() > 0 && j.frames.last().waiting {
            if succeeds(j.frames.last().srvc.data.name) {
                Some(SpawnOutcome::Spawned(pid))
            } else {
                Some(SpawnOutcome::Failed)
            }
        } else {
            None
        },
        None => None,
    }
}

/// Table and start-up after `n` transitions whose spawns succeed or fail
/// as `succeeds` says.
pub open spec fn run_chosen(
    t: TableView,
    r: StartupView,
    succeeds: spec_fn(Seq<char>) -> bool,
    pid: u32,
    n: nat,
) -> (TableView, StartupView)
    decreases n,
{
    if n == 0 {
        (t, r)
    } else {
        let (t2, r2, a) = startup_step_spec(t, r, chosen_event(r, succeeds, pid));
        run_chosen(t2, r2, succeeds, pid, (n - 1) as nat)
    }
}

/// Service `k` of `t0` can come up: it is enabled and not pending, its own
/// spawn succeeds, and each of its dependencies has an entry that is active.
pub open spec fn can_come_up(t0: TableView, k: int, succeeds: spec_fn(Seq<char>) -> bool) -> bool {
    &&& 0 <= k < t0.len()
    &&& t0[k].1.data.enabled
    &&& !(t0[k].1.state is Pending)
    &&& succeeds(t0[k].1.data.name)
    &&& deps_up(t0, t0[k].1.data.depends, t0[k].1.data.depends.len())
}

/// The start of service `k` is over with it active, or under way with its
/// service alone and no failure seen.
spec fn simple_job(t: TableView, j: JobView, k: int) -> bool {
    ||| (j.frames.len() == 0 && t[k].1.state.spec_is_active())
    ||| (j.frames.len() == 1 && j.frames[0].srvc.data == t[k].1.data && j.frames[0].ok)
}

/// A round under way since table `t0`, whose spawns go as `succeeds` says:
/// every service it went through that could come up is active.
spec fn round_inv(
    t0: TableView,
    t: TableView,
    r: StartupView,
    succeeds: spec_fn(Seq<char>) -> bool,
    rank: spec_fn(Seq<char>) -> nat,
    width: nat,
) -> bool {
    &&& startup_wf(r)
    &&& startup_inv(t, r)
    &&& startup_fresh(t, r, rank)
    &&& table_named(t)
    &&& keys_distinct(t)
    &&& ranked(t, rank)
    &&& width_bounded(t, width)
    &&& r.in_round
    &&& !r.over
    &&& r.names == names(t)
    &&& t.len() == t0.len()
    &&& grows_active(t0, t)
    &&& forall|i: int|
        0 <= i < t.len() ==> (#[trigger] t[i]).0 == t0[i].0 && t[i].1.data == t0[i].1.data && (t[i].1.state
            == t0[i].1.state || t[i].1.state.spec_is_active())
    &&& forall|i: int| 0 <= i < r.next && can_come_up(t0, i, succeeds) ==> (#[trigger] t[i]).1.state.spec_is_active()
    &&& (r.job is Some && can_come_up(t0, r.next as int, succeeds)) ==> simple_job(t, r.job.unwrap(), r.next as int)
}

proof fn lemma_width_starts_only(t: TableView, u: TableView, width: nat)
    requires
        starts_only(t, u),
        width_bounded(t, width),
    ensures
        width_bounded(u, width),
{
    assert forall|k: Seq<char>| #[trigger] lookup(u, k) is Some implies lookup(u, k).unwrap().data.depends.len() <= width by {
        lemma_starts_only_lookup(t, u, k);
    }
}

/// One transition of a round whose spawns go as `succeeds` says keeps the
/// round's invariant and lowers (the names left, whether no start is under
/// way, the start's measure).
proof fn lemma_round_chosen_step(
    t0: TableView,
    t: TableView,
    r: StartupView,
    succeeds: spec_fn(Seq<char>) -> bool,
    pid: u32,
    rank: spec_fn(Seq<char>) -> nat,
    width: nat,
)
    requires
        round_inv(t0, t, r, succeeds, rank, width),
        !(r.job is None && r.next == r.names.len()),
    ensures
        ({
            let (t2, r2, a) = startup_step_spec(t, r, chosen_event(r, succeeds, pid));
            &&& round_inv(t0, t2, r2, succeeds, rank, width)
            &&& r2.names.len() == r.names.len()
            &&& (r2.next > r.next || (r2.next == r.next && r.job is None && r2.job is Some) || (r2.next == r.next
                && r.job is Some && r2.job is Some && start_measure(width, rank, r2.job.unwrap()) < start_measure(
                width,
                rank,
                r.job.unwrap(),
            )))
        }),
{
    let ev = chosen_event(r, succeeds, pid);
    let (t2, r2, a) = startup_step_spec(t, r, ev);
    let k = r.next as int;
    lemma_startup_step(t, r, ev);
    lemma_startup_rounds(t, r, ev, rank);
    lemma_starts_only_names(t, t2);
    lemma_width_starts_only(t, t2, width);
    lemma_grows_trans(t0, t, t2);
    assert forall|i: int| 0 <= i < t2.len() implies (#[trigger] t2[i]).0 == t0[i].0 && t2[i].1.data == t0[i].1.data
        && (t2[i].1.state == t0[i].1.state || t2[i].1.state.spec_is_active()) by {
        assert(t[i].0 == t0[i].0);
        assert(t2[i].0 == t[i].0);
    }
    assert(k < t.len());
    assert(r.names[k] == t[k].0);
    lemma_lookup_at(t, k);
    if r.job is Some {
        let j = r.job.unwrap();
        if j.frames.len() > 0 {
            lemma_start_ends(t, j, ev, rank, width);
        }
        if can_come_up(t0, k, succeeds) && j.frames.len() > 0 {
            // the start of a service that can come up, alone and without failure
            let f = j.frames.last();
            assert(f == j.frames[0]);
            assert(deps_of(f) == t0[k].1.data.depends);
            assert(f.srvc.data.name == t0[k].1.data.name);
            let (t3, j3, a3) = step_spec(t, j, ev);
            assert(t3 == t2);
            if f.waiting {
                assert(ev == Some(SpawnOutcome::Spawned(pid)));
            } else if f.next < deps_of(f).len() {
                let d = deps_of(f)[f.next as int];
                assert(lookup(t0, d) matches Some(x) && x.state.spec_is_active());
                lemma_deps_up_grows(t0, t, t0[k].1.data.depends, t0[k].1.data.depends.len());
                assert(lookup(t, d) matches Some(x) && x.state.spec_is_active());
            }
            if a3 is Done {
                lemma_launch_after_dependencies(t, j, ev);
                assert(j3.last.unwrap().1 == crate::service::StartResult::Success);
                assert(j3.last.unwrap().0.data.name == t0[k].1.data.name);
                assert(t2[k].0 == t2[k].1.data.name);
                lemma_lookup_at(t2, k);
                assert(t2[k].1.state.spec_is_active());
            }
        }
        if j.frames.len() == 0 {
            assert(t2 == t);
        }
        if j.frames.len() > 0 {
            let (t3, j3, a3) = step_spec(t, j, ev);
            assert(r2.next == r.next + 1 ==> a3 is Done);
        }
        assert(r2.next == r.next + 1 && can_come_up(t0, k, succeeds) ==> t2[k].1.state.spec_is_active());
    } else if r.next < r.names.len() {
        let s = t[k].1;
        if s.data.enabled && can_come_up(t0, k, succeeds) {
            assert(!(s.state is Pending));
            if !s.state.spec_is_active() {
                assert(r2.job.unwrap().frames[0] == new_frame(s, StartReason::Enabled));
            }
        }
    }
    assert forall|i: int| 0 <= i < r2.next && can_come_up(t0, i, succeeds) implies (#[trigger] t2[i]).1.state.spec_is_active() by {
        if i < r.next {
            assert(t[i].1.state.spec_is_active());
            assert(t2[i].1 == t[i].1 || !t[i].1.state.spec_is_active());
        } else {
            assert(i == k);
        }
    }
}

proof fn lemma_round_chosen(
    t0: TableView,
    t: TableView,
    r: StartupView,
    succeeds: spec_fn(Seq<char>) -> bool,
    pid: u32,
    rank: spec_fn(Seq<char>) -> nat,
    width: nat,
) -> (n: nat)
    requires
        round_inv(t0, t, r, succeeds, rank, width),
    ensures
        ({
            let (tn, rn) = run_chosen(t, r, succeeds, pid, n);
            &&& round_inv(t0, tn, rn, succeeds, rank, width)
            &&& rn.job is None
            &&& rn.next == rn.names.len()
        }),
    decreases r.names.len() - r.next, (if r.job is None {
        1int
    } else {
        0int
    }), (match r.job {
        Some(j) => start_measure(width, rank, j) as int,
        None => 0int,
    }),
{
    if r.job is None && r.next == r.names.len() {
        0
    } else {
        let (t2, r2, a) = startup_step_spec(t, r, chosen_event(r, succeeds, pid));
        lemma_round_chosen_step(t0, t, r, succeeds, pid, rank, width);
        let n2 = lemma_round_chosen(t0, t2, r2, succeeds, pid, rank, width);
        assert(run_chosen(t, r, succeeds, pid, n2 + 1) == run_chosen(t2, r2, succeeds, pid, n2));
        n2 + 1
    }
}

/// A round of start-up tries every enabled service, whatever the spawns of
/// the others give: in a table whose entries stand under their services'
/// names, with distinct names and no dependency cycle, a round begun on
/// the table reaches its end after finitely many transitions, whichever
/// spawns succeed (as `succeeds` says of each service), and then every
/// service that can come up (enabled, not pending, its own spawn
/// succeeding, and its dependencies active when the round began) is active.
pub proof fn lemma_round_tries_every_service(
    t: TableView,
    r: StartupView,
    succeeds: spec_fn(Seq<char>) -> bool,
    pid: u32,
    rank: spec_fn(Seq<char>) -> nat,
    width: nat,
) -> (n: nat)
    requires
        r.in_round,
        !r.over,
        r.next == 0,
        r.job is None,
        r.names == names(t),
        r.before == snapshot(t),
        table_named(t),
        keys_distinct(t),
        ranked(t, rank),
        width_bounded(t, width),
    ensures
        ({
            let (tn, rn) = run_chosen(t, r, succeeds, pid, n);
            &&& rn.in_round
            &&& rn.job is None
            &&& rn.next == rn.names.len()
            &&& names(tn) == names(t)
            &&& forall|k: int| can_come_up(t, k, succeeds) ==> (#[trigger] tn[k]).1.state.spec_is_active()
        }),
{
    assert forall|k: Seq<char>| #[trigger] lookup(t, k) is Some && lookup(snapshot(t), k) != Some(lookup(t, k).unwrap().state)
        implies lookup(t, k).unwrap().state.spec_is_active() by {
        lemma_snapshot_lookup(t, k);
    }
    assert forall|i: int| #![trigger t[i]] 0 <= i < t.len() implies snapshot(t)[i].0 == t[i].0 && (t[i].1.state
        == snapshot(t)[i].1 || (!snapshot(t)[i].1.spec_is_active() && t[i].1.state == ServiceState::Starting)) by {
    }
    lemma_grows_refl(t);
    let n = lemma_round_chosen(t, t, r, succeeds, pid, rank, width);
    let (tn, rn) = run_chosen(t, r, succeeds, pid, n);
    assert(names(tn) =~= names(t)) by {
        assert forall|i: int| 0 <= i < tn.len() implies names(tn)[i] == names(t)[i] by {
            assert(tn[i].0 == t[i].0);
        }
    }
    n
}

} // verus!
