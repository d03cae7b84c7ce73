use vstd::prelude::*;

use crate::cfg::{ServiceData, ServiceDataView};
use crate::text::{push_signed_decimal, signed_decimal};

verus! {

/// The lifecycle state of a service.
#[derive(Debug, Clone, Copy, PartialEq, Eq, Structural)]
pub enum ServiceState {
    /// Not yet processed for start-up.
    NotProcessed,
    /// To be executed.
    Pending,
    Starting,
    Running,
    Stopping,
    Stopped,
    Exited,
    Failed(Option<i32>),
    SpawnFailure,
}

impl ServiceState {
    /// The states in which a service counts as up.
    pub open spec fn spec_is_active(self) -> bool {
        self is Starting || self is Running || self is Stopping
    }

    /// Whether the service is up (starting, running or stopping).
    #[verifier::when_used_as_spec(spec_is_active)]
    pub fn is_active(self) -> (r: bool)
        ensures
            r == self.spec_is_active(),
    {
        match self {
            ServiceState::Failed(_) | ServiceState::Stopped | ServiceState::Exited
            | ServiceState::NotProcessed | ServiceState::SpawnFailure | ServiceState::Pending => false,
            _ => true,
        }
    }

    /// Whether the service waits to be executed.
    pub fn is_pending(self) -> (r: bool)
        ensures
            r == (self is Pending),
    {
        match self {
            ServiceState::Pending => true,
            _ => false,
        }
    }
}


/// A service waiting to be executed is not up.
pub proof fn lemma_pending_not_active(st: ServiceState)
    ensures
        st is Pending ==> !st.spec_is_active(),
{
}

/// What `{}` prints for a service state.
pub open spec fn state_text(st: ServiceState) -> Seq<char> {
    match st {
        ServiceState::NotProcessed => "Not processed"@,
        ServiceState::Pending => "Pending"@,
        ServiceState::Starting => "Starting"@,
        ServiceState::Running => "Running"@,
        ServiceState::Stopping => "Stopping"@,
        ServiceState::Stopped => "Stopped"@,
        ServiceState::Exited => "Exited"@,
        ServiceState::Failed(Some(c)) => "Failed (status code "@ + signed_decimal(c as int) + ")"@,
        ServiceState::Failed(None) => "Failed"@,
        ServiceState::SpawnFailure => "Process spawn failed"@,
    }
}

impl ServiceState {
    /// The human-readable name of the state.
    pub fn to_string(self) -> (r: String)
        ensures
            r@ == state_text(self),
    {
        match self {
            ServiceState::NotProcessed => String::from_str("Not processed"),
            ServiceState::Pending => String::from_str("Pending"),
            ServiceState::Starting => String::from_str("Starting"),
            ServiceState::Running => String::from_str("Running"),
            ServiceState::Stopping => String::from_str("Stopping"),
            ServiceState::Stopped => String::from_str("Stopped"),
            ServiceState::Exited => String::from_str("Exited"),
            ServiceState::Failed(Some(c)) => {
                let mut r = String::from_str("Failed (status code ");
                push_signed_decimal(&mut r, c);
                r.append(")");
                r
            },
            ServiceState::Failed(None) => String::from_str("Failed"),
            ServiceState::SpawnFailure => String::from_str("Process spawn failed"),
        }
    }
}

/// Result of starting a service.
#[derive(Debug, Clone, Copy, PartialEq, Eq, Structural)]
pub enum StartResult {
    Success,
    AlreadyActive,
    DepFault,
    SpawnFault,
}

/// Why a service was started.
#[derive(Debug, Clone, Copy, PartialEq, Eq, Structural)]
pub enum StartReason {
    /// Not started.
    NotStarted,
    Enabled,
    AsDep,
    OnDemand,
}

/// A configured service together with its run-time state.
#[derive(Debug, Clone)]
pub struct Service {
    pub data: ServiceData,
    pub state: ServiceState,
    /// Id of the process that was spawned for the service, if any.
    pub pid: Option<u32>,
    pub reasn: StartReason,
}

/// The mathematical model of a service.
pub struct ServiceView {
    pub data: ServiceDataView,
    pub state: ServiceState,
    pub pid: Option<u32>,
    pub reasn: StartReason,
}

impl View for Service {
    type V = ServiceView;

    open spec fn view(&self) -> ServiceView {
        ServiceView { data: self.data@, state: self.state, pid: self.pid, reasn: self.reasn }
    }
}

impl DeepView for Service {
    type V = ServiceView;

    open spec fn deep_view(&self) -> ServiceView {
        self@
    }
}

impl Service {
    /// A copy of the service.
    pub fn duplicate(&self) -> (r: Service)
        ensures
            r@ == self@,
    {
        Service { data: self.data.duplicate(), state: self.state, pid: self.pid, reasn: self.reasn }
    }
}

} // verus!
