//! Unit definitions: the configuration objects that the init system manages.

use vstd::prelude::*;
use std::collections::HashMap;

verus! {

/// Top-level unit definition.
#[derive(Debug, Clone)]
pub struct Unit {
    pub name: String,
    pub unit: UnitSection,
    /// Only set for .service units.
    pub service: Option<ServiceSection>,
    /// Only set for .socket units.
    pub socket: Option<SocketSection>,
    /// Only set for .mount units.
    pub mount: Option<MountSection>,
    /// Only set for .network units.
    pub network: Option<NetworkSection>,
}

/// The `[unit]` section, common to all unit types.
#[derive(Debug, Clone)]
pub struct UnitSection {
    pub description: String,
    pub documentation: Vec<String>,
    pub requires: Vec<String>,
    pub wants: Vec<String>,
    pub before: Vec<String>,
    pub after: Vec<String>,
    pub conflicts: Vec<String>,
    pub condition_path_exists: Vec<String>,
}

impl Default for UnitSection {
    fn default() -> (r: UnitSection)
        ensures
            r.description@.len() == 0,
            r.documentation@.len() == 0,
            r.requires@.len() == 0,
            r.wants@.len() == 0,
            r.before@.len() == 0,
            r.after@.len() == 0,
            r.conflicts@.len() == 0,
            r.condition_path_exists@.len() == 0,
    {
        UnitSection {
            description: String::new(),
            documentation: Vec::new(),
            requires: Vec::new(),
            wants: Vec::new(),
            before: Vec::new(),
            after: Vec::new(),
            conflicts: Vec::new(),
            condition_path_exists: Vec::new(),
        }
    }
}

/// The `[service]` section: process lifecycle configuration.
#[derive(Debug, Clone)]
pub struct ServiceSection {
    /// Main command to start the service.
    pub exec_start: Vec<String>,
    /// Command to stop the service gracefully.
    pub exec_stop: Option<Vec<String>>,
    /// Command to reload the service configuration.
    pub exec_reload: Option<Vec<String>>,
    /// Service type: simple, forking, oneshot, notify.
    pub service_type: ServiceType,
    /// Restart behaviour.
    pub restart: RestartPolicy,
    /// Seconds to wait before a restart.
    pub restart_sec: u32,
    /// Working directory for the service.
    pub working_directory: Option<String>,
    /// Environment variables, by name.
    pub environment: HashMap<String, String>,
    /// Terminal device for a native getty (e.g. "ttyAMA0").
    pub tty: Option<String>,
    /// Baud rate for the terminal device.
    pub tty_baud: Option<u32>,
    /// OOM score adjustment (-1000..1000).
    pub oom_score_adj: i32,
    /// cgroup memory limit (e.g. "512M").
    pub memory_max: Option<String>,
    /// cgroup CPU weight.
    pub cpu_weight: Option<u32>,
    /// Maximum number of tasks.
    pub tasks_max: Option<u32>,
}

#[derive(Debug, Clone, Copy, PartialEq, Eq, Structural)]
pub enum ServiceType {
    Simple,
    Forking,
    Oneshot,
    Notify,
}

#[derive(Debug, Clone, Copy, PartialEq, Eq, Structural)]
pub enum RestartPolicy {
    No,
    Always,
    OnFailure,
    OnAbnormal,
}

impl Default for RestartPolicy {
    fn default() -> (r: RestartPolicy)
        ensures
            r == RestartPolicy::No,
    {
        RestartPolicy::No
    }
}

/// The `[socket]` section.
#[derive(Debug, Clone)]
pub struct SocketSection {
    /// Listen addresses: "0.0.0.0:8080" or "/run/myapp.sock".
    pub listen_stream: Vec<String>,
    /// Service to activate when a connection arrives.
    pub service: String,
}

/// The `[mount]` section.
#[derive(Debug, Clone)]
pub struct MountSection {
    /// What to mount (device path, UUID, or filesystem label).
    pub what: String,
    /// Where to mount.
    pub mount_where: String,
    /// Filesystem type.
    pub fstype: String,
    /// Mount options.
    pub options: Vec<String>,
}

/// The `[network]` section: static IP or DHCP configuration.
#[derive(Debug, Clone)]
pub struct NetworkSection {
    /// Interface name (e.g. "eth0").
    pub name: String,
    /// Use DHCP to obtain the IP configuration.
    pub dhcp: bool,
    /// Static IP address in CIDR notation (e.g. "192.168.1.100/24").
    pub address: Option<String>,
    /// Default gateway (e.g. "192.168.1.1").
    pub gateway: Option<String>,
    /// DNS servers.
    pub dns: Option<Vec<String>>,
}

/// The service type a `[service]` section gets when it names none.
pub fn default_service_type() -> (r: ServiceType)
    ensures
        r == ServiceType::Simple,
{
    ServiceType::Simple
}

impl Unit {
    /// The names of the unit's dependencies, hard ones first, then soft ones.
    pub open spec fn dep_names(&self) -> Seq<Seq<char>> {
        self.unit.requires.deep_view() + self.unit.wants.deep_view()
    }

    pub fn is_service(&self) -> (r: bool)
        ensures
            r == self.service.is_some(),
    {
        self.service.is_some()
    }

    pub fn is_network(&self) -> (r: bool)
        ensures
            r == self.network.is_some(),
    {
        self.network.is_some()
    }

    /// Hard dependencies (`requires`).
    pub fn hard_deps(&self) -> (r: &[String])
        ensures
            r@ == self.unit.requires@,
    {
        self.unit.requires.as_slice()
    }

    /// Soft dependencies (`wants`).
    pub fn soft_deps(&self) -> (r: &[String])
        ensures
            r@ == self.unit.wants@,
    {
        self.unit.wants.as_slice()
    }
}


/// A copy of a list of strings.
pub fn clone_strings(v: &Vec<String>) -> (r: Vec<String>)
    ensures
        r.deep_view() == v.deep_view(),
{
    let mut out: Vec<String> = Vec::new();
    for i in 0..v.len()
        invariant
            out.deep_view() == v.deep_view().take(i as int),
    {
        let ghost before = out.deep_view();
        let c = v[i].clone();
        proof {
            assert(c@ == v@[i as int]@);
        }
        out.push(c);
        proof {
            assert(out.deep_view() =~= before.push(c@));
            assert(v.deep_view().take(i + 1) =~= v.deep_view().take(i as int).push(v@[i as int]@));
        }
    }
    proof {
        assert(v.deep_view().take(v.len() as int) =~= v.deep_view());
    }
    out
}

impl UnitSection {
    pub(crate) fn duplicate(&self) -> (r: UnitSection)
        ensures
            r.description@ == self.description@,
            r.documentation.deep_view() == self.documentation.deep_view(),
            r.requires.deep_view() == self.requires.deep_view(),
            r.wants.deep_view() == self.wants.deep_view(),
            r.before.deep_view() == self.before.deep_view(),
            r.after.deep_view() == self.after.deep_view(),
            r.conflicts.deep_view() == self.conflicts.deep_view(),
            r.condition_path_exists.deep_view() == self.condition_path_exists.deep_view(),
    {
        UnitSection {
            description: self.description.clone(),
            documentation: clone_strings(&self.documentation),
            requires: clone_strings(&self.requires),
            wants: clone_strings(&self.wants),
            before: clone_strings(&self.before),
            after: clone_strings(&self.after),
            conflicts: clone_strings(&self.conflicts),
            condition_path_exists: clone_strings(&self.condition_path_exists),
        }
    }
}

impl Unit {
    /// A copy of the unit: its name, its `[unit]` section and which kinds of
    /// section it has are kept as they are.
    pub(crate) fn duplicate(&self) -> (r: Unit)
        ensures
            r.name@ == self.name@,
            r.dep_names() == self.dep_names(),
            r.unit.conflicts.deep_view() == self.unit.conflicts.deep_view(),
            r.unit.requires.deep_view() == self.unit.requires.deep_view(),
            r.unit.wants.deep_view() == self.unit.wants.deep_view(),
            r.unit.after.deep_view() == self.unit.after.deep_view(),
            r.unit.before.deep_view() == self.unit.before.deep_view(),
            r.service.is_some() == self.service.is_some(),
            r.socket.is_some() == self.socket.is_some(),
            r.mount.is_some() == self.mount.is_some(),
            r.network.is_some() == self.network.is_some(),
    {
        Unit {
            name: self.name.clone(),
            unit: self.unit.duplicate(),
            service: self.service.clone(),
            socket: self.socket.clone(),
            mount: self.mount.clone(),
            network: self.network.clone(),
        }
    }
}

} // verus!
