//! The command line: what each command asks of the running manager.
use vstd::prelude::*;

use crate::manager::IpcCommand;

verus! {

/// The arguments of the command line.
#[derive(Debug, Clone)]
pub struct CliArgs {
    pub command: Option<Commands>,
}

/// The commands of the command line.
#[derive(Debug, Clone)]
pub enum Commands {
    /// Run as the init system.
    Serve,
    /// Check that the manager answers ("Pong").
    Ping,
    /// Start services.
    Start { service_names: Vec<String> },
    /// Stop active services.
    Stop { service_names: Vec<String> },
    Restart,
    Enable,
    Disable,
    /// Report on the state of a service.
    Status { service_name: String },
    /// The process id of a running service.
    Pid { service_name: String },
    /// A table of the active services.
    Ps,
    /// Shut the manager down.
    Shutdown,
}

/// What the command line has to do.
#[derive(Debug, Clone)]
pub enum CliPlan {
    /// Run the manager.
    Serve,
    /// Send these messages, one after another, and print each textual reply.
    Send(Vec<IpcCommand>),
    /// Tell the user to name a command.
    Usage,
}

/// `m` asks to stop (when `stop`) or to start the service `name`.
pub open spec fn names_message(m: IpcCommand, name: Seq<char>, stop: bool) -> bool {
    if stop {
        m matches IpcCommand::Stop(n) && n@ == name
    } else {
        m matches IpcCommand::Start(n) && n@ == name
    }
}

/// One message per name, in order: stop messages when `stop`, start messages otherwise.
pub open spec fn one_per_name(msgs: Seq<IpcCommand>, names: Seq<String>, stop: bool) -> bool {
    &&& msgs.len() == names.len()
    &&& forall|i: int| 0 <= i < msgs.len() ==> names_message(#[trigger] msgs[i], names[i]@, stop)
}

fn messages_for(names: &Vec<String>, stop: bool) -> (r: Vec<IpcCommand>)
    ensures
        one_per_name(r@, names@, stop),
{
    let mut r: Vec<IpcCommand> = Vec::new();
    let mut i: usize = 0;
    while i < names.len()
        invariant
            i <= names.len(),
            r@.len() == i,
            forall|j: int| 0 <= j < i ==> names_message(#[trigger] r@[j], names@[j]@, stop),
        decreases names.len() - i,
    {
        let n = names[i].clone();
        if stop {
            r.push(IpcCommand::Stop(n));
        } else {
            r.push(IpcCommand::Start(n));
        }
        i = i + 1;
    }
    r
}

impl CliArgs {
    /// What the command line does for these arguments.
    pub fn plan(&self) -> (r: CliPlan)
        ensures
            match self.command {
                Some(Commands::Serve) => r is Serve,
                Some(Commands::Start { service_names }) => r matches CliPlan::Send(m) && one_per_name(
                    m@,
                    service_names@,
                    false,
                ),
                Some(Commands::Stop { service_names }) => r matches CliPlan::Send(m) && one_per_name(
                    m@,
                    service_names@,
                    true,
                ),
                Some(Commands::Ping) => r matches CliPlan::Send(m) && m@.len() == 1 && m@[0] is Ping,
                Some(Commands::Pid { service_name }) => r matches CliPlan::Send(m) && m@.len() == 1
                    && (m@[0] matches IpcCommand::Pid(n) && n@ == service_name@),
                Some(Commands::Status { service_name }) => r matches CliPlan::Send(m) && m@.len() == 1
                    && (m@[0] matches IpcCommand::Status(n) && n@ == service_name@),
                Some(Commands::Ps) => r matches CliPlan::Send(m) && m@.len() == 1 && m@[0] is Ps,
                Some(Commands::Shutdown) => r matches CliPlan::Send(m) && m@.len() == 1 && m@[0] is Shutdown,
                _ => r is Usage,
            },
    {
        match &self.command {
            Some(Commands::Serve) => CliPlan::Serve,
            Some(Commands::Start { service_names }) => CliPlan::Send(messages_for(service_names, false)),
            Some(Commands::Stop { service_names }) => CliPlan::Send(messages_for(service_names, true)),
            Some(Commands::Ping) => CliPlan::Send(vec![IpcCommand::Ping]),
            Some(Commands::Pid { service_name }) => CliPlan::Send(vec![IpcCommand::Pid(service_name.clone())]),
            Some(Commands::Status { service_name }) => CliPlan::Send(
                vec![IpcCommand::Status(service_name.clone())],
            ),
            Some(Commands::Ps) => CliPlan::Send(vec![IpcCommand::Ps]),
            Some(Commands::Shutdown) => CliPlan::Send(vec![IpcCommand::Shutdown]),
            _ => CliPlan::Usage,
        }
    }
}

} // verus!
