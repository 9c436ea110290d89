//! cgroups v2 naming and control writes.
//!
//! Each service gets its own directory `init-<service>.slice` under the
//! cgroup v2 mount point. Limits and membership are set by writing a value
//! to a controller file inside that directory; this module computes which
//! file receives which value.

use vstd::prelude::*;
use vstd::string::*;
use crate::text::{chars_of, decimal, decimal_string, signed_decimal, signed_decimal_string};

verus! {

/// Where the cgroup v2 hierarchy is mounted.
pub open spec fn cgroup_root() -> Seq<char> {
    "/sys/fs/cgroup"@
}

/// The directory name of a service's cgroup.
pub open spec fn cgroup_name(service: Seq<char>) -> Seq<char> {
    "init-"@ + service + ".slice"@
}

/// `base` joined with `rel` as `Path::join` does on Unix: an absolute `rel`
/// replaces `base`; otherwise a separator is added when `base` is non-empty
/// and does not already end with one.
pub open spec fn path_join(base: Seq<char>, rel: Seq<char>) -> Seq<char> {
    if rel.len() > 0 && rel[0] == '/' {
        rel
    } else if base.len() > 0 && base.last() != '/' {
        base + seq!['/'] + rel
    } else {
        base + rel
    }
}

/// Handle to a service-specific cgroup.
#[derive(Debug)]
pub struct CgroupHandle {
    pub name: String,
    pub path: String,
}

/// A value to write to a cgroup control file.
#[derive(Debug)]
pub struct ControlWrite {
    /// The control file.
    pub path: String,
    /// What to write to it.
    pub value: String,
}

fn join_path(base: &str, rel: &str) -> (r: String)
    ensures
        r@ == path_join(base@, rel@),
{
    let rc = chars_of(rel);
    let bc = chars_of(base);
    if rc.len() > 0 && rc[0] == '/' {
        return String::from_str(rel);
    }
    let mut s = String::from_str(base);
    if bc.len() > 0 && bc[bc.len() - 1] != '/' {
        let sep = "/";
        proof {
            reveal_strlit("/");
        }
        s.append(sep);
    }
    s.append(rel);
    proof {
        if bc@.len() > 0 && bc@.last() != '/' {
            assert(s@ =~= base@ + seq!['/'] + rel@);
        } else {
            assert(s@ =~= base@ + rel@);
        }
    }
    s
}

impl CgroupHandle {
    /// The cgroup of a service: `init-<service>.slice` under
    /// `/sys/fs/cgroup`.
    pub fn new(service_name: &str) -> (r: Self)
        ensures
            r.name@ == cgroup_name(service_name@),
            r.path@ == path_join(cgroup_root(), cgroup_name(service_name@)),
    {
        let prefix = "init-";
        let suffix = ".slice";
        let mut name = String::from_str(prefix);
        name.append(service_name);
        name.append(suffix);
        let path = join_path("/sys/fs/cgroup", name.as_str());
        proof {
            assert(name@ =~= cgroup_name(service_name@));
        }
        CgroupHandle { name, path }
    }

    /// The write of `value` to the controller file `controller` of this
    /// cgroup.
    pub fn write_control(&self, controller: &str, value: &str) -> (r: ControlWrite)
        ensures
            r.path@ == path_join(self.path@, controller@),
            r.value@ == value@,
    {
        ControlWrite { path: join_path(self.path.as_str(), controller), value: String::from_str(value) }
    }

    /// Adds a process to this cgroup: its pid, in decimal, written to
    /// `cgroup.procs`.
    pub fn attach_process(&self, pid: i32) -> (r: ControlWrite)
        ensures
            r.path@ == path_join(self.path@, "cgroup.procs"@),
            r.value@ == signed_decimal(pid as int),
    {
        let v = signed_decimal_string(pid as i64);
        self.write_control("cgroup.procs", v.as_str())
    }

    /// Sets the memory limit (e.g. "512M") in `memory.max`.
    pub fn set_memory_max(&self, limit: &str) -> (r: ControlWrite)
        ensures
            r.path@ == path_join(self.path@, "memory.max"@),
            r.value@ == limit@,
    {
        self.write_control("memory.max", limit)
    }

    /// Sets the CPU weight (1..10000, default 100) in `cpu.weight`.
    pub fn set_cpu_weight(&self, weight: u32) -> (r: ControlWrite)
        ensures
            r.path@ == path_join(self.path@, "cpu.weight"@),
            r.value@ == decimal(weight as nat),
    {
        let v = decimal_string(weight as u64);
        self.write_control("cpu.weight", v.as_str())
    }

    /// Sets the largest number of tasks in `pids.max`.
    pub fn set_pids_max(&self, max: u32) -> (r: ControlWrite)
        ensures
            r.path@ == path_join(self.path@, "pids.max"@),
            r.value@ == decimal(max as nat),
    {
        let v = decimal_string(max as u64);
        self.write_control("pids.max", v.as_str())
    }
}

} // verus!
