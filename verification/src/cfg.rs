use vstd::prelude::*;

use crate::service::{Service, ServiceState, StartReason};

verus! {

/// A service as the configuration describes it.
#[derive(Debug, Clone)]
pub struct ServiceData {
    pub name: String,
    pub enabled: bool,
    pub command: String,
    pub depends: Vec<String>,
}

/// The mathematical model of a service description.
pub struct ServiceDataView {
    pub name: Seq<char>,
    pub enabled: bool,
    pub command: Seq<char>,
    pub depends: Seq<Seq<char>>,
}

impl View for ServiceData {
    type V = ServiceDataView;

    open spec fn view(&self) -> ServiceDataView {
        ServiceDataView {
            name: self.name@,
            enabled: self.enabled,
            command: self.command@,
            depends: self.depends.deep_view(),
        }
    }
}

/// A copy of a list of names.
pub fn copy_names(v: &Vec<String>) -> (r: Vec<String>)
    ensures
        r.deep_view() == v.deep_view(),
{
    let mut r: Vec<String> = Vec::new();
    let mut i: usize = 0;
    while i < v.len()
        invariant
            i <= v.len(),
            r.deep_view() =~= v.deep_view().take(i as int),
        decreases v.len() - i,
    {
        r.push(v[i].clone());
        proof {
            assert(v.deep_view().take((i + 1) as int) =~= v.deep_view().take(i as int).push(v[i as int]@));
        }
        i = i + 1;
    }
    proof {
        assert(v.deep_view().take(v.len() as int) =~= v.deep_view());
    }
    r
}

impl ServiceData {
    /// A copy of the description.
    pub fn duplicate(&self) -> (r: ServiceData)
        ensures
            r@ == self@,
    {
        ServiceData {
            name: self.name.clone(),
            enabled: self.enabled,
            command: self.command.clone(),
            depends: copy_names(&self.depends),
        }
    }

    /// The service described, not yet processed for start-up.
    pub fn to_service(self) -> (r: Service)
        ensures
            r.data@ == self@,
            r.state == ServiceState::NotProcessed,
            r.pid is None,
            r.reasn == StartReason::NotStarted,
    {
        Service { data: self, state: ServiceState::NotProcessed, pid: None, reasn: StartReason::NotStarted }
    }
}

/// The services of one configuration file, keyed by their table name.
#[derive(Debug, Clone)]
pub struct ServicesList {
    pub services: Vec<(String, ServiceData)>,
}

impl View for ServicesList {
    type V = Seq<(Seq<char>, ServiceDataView)>;

    open spec fn view(&self) -> Seq<(Seq<char>, ServiceDataView)> {
        self.services@.map_values(|e: (String, ServiceData)| (e.0@, e.1@))
    }
}

} // verus!
