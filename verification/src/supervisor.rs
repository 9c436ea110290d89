//! Supervision decisions: which units the default target starts and in what
//! order, how a service is launched, how a network unit is configured, and
//! what happens when a supervised process exits.

use vstd::prelude::*;
use vstd::string::*;
use crate::deps::{
    dep_map, lemma_same_ordering, lemma_start_set_empty, lemma_start_set_loaded, order_map, resolve_startup_order,
    start_set, started_by, startable,
    startup_layer, units_to_start, DepError, UnitRegistry,
};
use crate::types::{clone_strings, NetworkSection, RestartPolicy, ServiceSection, Unit};
use crate::process::{ChildExit, ProcessTable};
use crate::text::str_eq;

verus! {

#[derive(Debug)]
pub enum PlanError {
    /// The registry holds no `default.target`.
    NoDefaultTarget,
    /// Some unit to start can never start.
    Dependency(DepError),
}

/// The units that `default.target` brings in: the loaded units it wants
/// and, transitively, every loaded unit they require or want.
pub open spec fn default_units(units: Map<Seq<char>, Unit>) -> Map<Seq<char>, Unit> {
    let wanted = units["default.target"@].unit.wants.deep_view().to_set();
    units.restrict(start_set(dep_map(units), wanted))
}

/// The ordering graph of the units that `default.target` brings in.
pub open spec fn default_graph(units: Map<Seq<char>, Unit>) -> Map<Seq<char>, Seq<Seq<char>>> {
    order_map(default_units(units))
}

/// What booting into `default.target` does.
pub struct StartPlan {
    /// The layers of units to start, in order.
    pub layers: Vec<Vec<String>>,
    /// Whether the network units are configured afterwards; not when
    /// `default.target` wants nothing.
    pub configure_networks: bool,
}

/// The startup layers for `default.target`: the units it wants and,
/// transitively, everything they require or want, in the order of
/// `resolve_startup_order`.
pub fn default_target_plan(registry: &UnitRegistry) -> (r: Result<StartPlan, PlanError>)
    ensures
        !registry@.dom().contains("default.target"@) <==> r matches Err(PlanError::NoDefaultTarget),
        registry@.dom().contains("default.target"@) ==> {
            let g = default_graph(registry@);
            &&& (registry@["default.target"@].unit.wants@.len() == 0 ==> (r matches Ok(p) && p.layers@.len() == 0))
            &&& (r matches Ok(p) ==> p.configure_networks == (registry@["default.target"@].unit.wants@.len() > 0))
            &&& (r is Ok <==> forall|n: Seq<char>| #[trigger] g.dom().contains(n) ==> startable(g, n))
            &&& (r matches Ok(p) ==> {
                let layers = p.layers;
                &&& started_by(g, layers@.len() as nat) == g.dom()
                &&& forall|k: int|
                    0 <= k < layers@.len() ==> {
                        &&& #[trigger] layers@[k]@.len() > 0
                        &&& layers@[k].deep_view().no_duplicates()
                        &&& layers@[k].deep_view().to_set() == startup_layer(g, k as nat)
                    }
            })
            &&& (r matches Err(PlanError::Dependency(DepError::Cycle(names))) ==> {
                &&& names.deep_view().no_duplicates()
                &&& names.deep_view().to_set() == Set::new(
                    |n: Seq<char>| g.dom().contains(n) && !startable(g, n),
                )
            })
        },
{
    let target = "default.target";
    let default = match registry.get(target) {
        Some(u) => u,
        None => {
            return Err(PlanError::NoDefaultTarget);
        },
    };
    let wanted = clone_strings(&default.unit.wants);
    if wanted.len() == 0 {
        proof {
            assert(wanted.deep_view().len() == wanted@.len());
            assert(default.unit.wants.deep_view().len() == default.unit.wants@.len());
            assert(wanted.deep_view().to_set() =~= Set::<Seq<char>>::empty());
            lemma_start_set_empty(dep_map(registry@));
            let g = default_graph(registry@);
            assert(g.dom() =~= Set::<Seq<char>>::empty());
            assert(started_by(g, 0) =~= g.dom());
        }
        return Ok(StartPlan { layers: Vec::new(), configure_networks: false });
    }
    proof {
        assert(wanted.deep_view().len() == wanted@.len());
        assert(default.unit.wants.deep_view().len() == default.unit.wants@.len());
        assert(default.unit.wants@.len() != 0);
    }
    let to_start = units_to_start(registry, &wanted);
    proof {
        let g = dep_map(registry@);
        let ws = wanted.deep_view().to_set();
        assert(registry@.dom().contains(target@));
        assert(ws == registry@["default.target"@].unit.wants.deep_view().to_set());
        lemma_start_set_loaded(g, ws);
        let d = default_units(registry@);
        assert(d.dom() =~= to_start@.dom());
        lemma_same_ordering(to_start@, d);
        assert(order_map(to_start@) == default_graph(registry@));
    }
    let r = resolve_startup_order(&to_start);
    proof {
        assert(order_map(to_start@) == default_graph(registry@));
        assert(to_start@.dom() == default_graph(registry@).dom());
    }
    let ghost g = default_graph(registry@);
    match r {
        Ok(layers) => {
            proof {
                assert forall|n: Seq<char>| #[trigger] g.dom().contains(n) implies startable(g, n) by {
                    assert(to_start@.dom().contains(n));
                }
                assert(started_by(g, layers@.len() as nat) == g.dom());
                assert forall|k: int| 0 <= k < layers@.len() implies {
                    &&& #[trigger] layers@[k]@.len() > 0
                    &&& layers@[k].deep_view().no_duplicates()
                    &&& layers@[k].deep_view().to_set() == startup_layer(g, k as nat)
                } by {
                    assert(layers@[k]@.len() > 0);
                }
            }
            Ok(StartPlan { layers, configure_networks: true })
        },
        Err(e) => {
            proof {
                let n = choose|n: Seq<char>| #[trigger] to_start@.dom().contains(n) && !startable(order_map(to_start@), n);
                assert(g.dom().contains(n));
            }
            Err(PlanError::Dependency(e))
        },
    }
}


/// A terminal that a service runs on.
pub struct TerminalSpec {
    pub device: String,
    pub baud: u32,
}

/// How to launch a service.
pub struct ServiceCommand {
    /// The program to execute.
    pub path: String,
    /// Its arguments.
    pub args: Vec<String>,
    /// The terminal to attach it to, for a getty-like service.
    pub terminal: Option<TerminalSpec>,
}

#[derive(Debug, PartialEq, Eq)]
pub enum StartError {
    /// The service has an empty `exec_start`; it carries the unit's name.
    EmptyExecStart(String),
}

/// The launch of a service: the first word of `exec_start` is the program,
/// the rest its arguments; a service with a `tty` runs on that terminal at
/// `tty_baud`, 115200 baud when none is given.
pub fn service_command(name: &str, svc: &ServiceSection) -> (r: Result<ServiceCommand, StartError>)
    ensures
        svc.exec_start@.len() == 0 <==> r is Err,
        r matches Err(StartError::EmptyExecStart(n)) ==> n@ == name@,
        r matches Ok(c) ==> {
            &&& c.path@ == svc.exec_start@[0]@
            &&& c.args.deep_view() == svc.exec_start.deep_view().skip(1)
            &&& match svc.tty {
                Some(t) => c.terminal matches Some(ts) && ts.device@ == t@ && ts.baud == match svc.tty_baud {
                    Some(b) => b,
                    None => 115200u32,
                },
                None => c.terminal is None,
            }
        },
{
    if svc.exec_start.len() == 0 {
        return Err(StartError::EmptyExecStart(String::from_str(name)));
    }
    let path = svc.exec_start[0].clone();
    let mut args: Vec<String> = Vec::new();
    let n = svc.exec_start.len();
    for i in 1..n
        invariant
            n == svc.exec_start@.len(),
            n >= 1,
            args.deep_view() == svc.exec_start.deep_view().subrange(1, i as int),
    {
        let ghost before = args.deep_view();
        let a = svc.exec_start[i].clone();
        proof {
            assert(a@ == svc.exec_start@[i as int]@);
        }
        args.push(a);
        proof {
            assert(args.deep_view() =~= before.push(a@));
            assert(args.deep_view() =~= svc.exec_start.deep_view().subrange(1, i + 1));
        }
    }
    proof {
        assert(svc.exec_start.deep_view().subrange(1, n as int) =~= svc.exec_start.deep_view().skip(1));
    }
    let terminal = match &svc.tty {
        Some(t) => {
            let baud = match svc.tty_baud {
                Some(b) => b,
                None => 115200u32,
            };
            Some(TerminalSpec { device: t.clone(), baud })
        },
        None => None,
    };
    Ok(ServiceCommand { path, args, terminal })
}

/// What to do with a `[network]` section.
pub enum NetworkAction {
    /// Run the DHCP client on the interface.
    Dhcp(String),
    /// Configure a static address.
    Static { ifname: String, address: String, gateway: Option<String>, dns: Vec<String> },
    /// The section names neither DHCP nor an address.
    Unconfigured,
}

pub open spec fn opt_view(o: Option<String>) -> Option<Seq<char>> {
    match o {
        Some(s) => Some(s@),
        None => None,
    }
}

/// DHCP when the section asks for it; otherwise a static address when it has
/// one (with its gateway and DNS servers, none if unset); otherwise nothing.
pub fn network_action(net: &NetworkSection) -> (r: NetworkAction)
    ensures
        net.dhcp ==> (r matches NetworkAction::Dhcp(i) && i@ == net.name@),
        !net.dhcp && net.address is Some ==> (r matches NetworkAction::Static { ifname, address, gateway, dns } && ifname@
            == net.name@ && address@ == net.address.unwrap()@ && opt_view(gateway) == opt_view(net.gateway)
            && dns.deep_view() == match net.dns {
            Some(d) => d.deep_view(),
            None => Seq::empty(),
        }),
        !net.dhcp && net.address is None ==> r is Unconfigured,
{
    if net.dhcp {
        return NetworkAction::Dhcp(net.name.clone());
    }
    match &net.address {
        Some(addr) => {
            let dns = match &net.dns {
                Some(d) => clone_strings(d),
                None => Vec::new(),
            };
            let gateway = match &net.gateway {
                Some(g) => Some(g.clone()),
                None => None,
            };
            proof {
                if net.dns is None {
                    assert(dns.deep_view() =~= Seq::<Seq<char>>::empty());
                }
            }
            NetworkAction::Static { ifname: net.name.clone(), address: addr.clone(), gateway, dns }
        },
        None => NetworkAction::Unconfigured,
    }
}

/// The names of the network units, in registry order.
pub fn network_units(registry: &UnitRegistry) -> (r: Vec<String>)
    ensures
        r.deep_view() == registry.key_seq().filter(|n: Seq<char>| registry@[n].network is Some),
{
    let mut out: Vec<String> = Vec::new();
    let n = registry.len();
    let ghost ks = registry.key_seq();
    let ghost pred = |n: Seq<char>| registry@[n].network is Some;
    for i in 0..n
        invariant
            n == ks.len(),
            ks == registry.key_seq(),
            pred == (|n: Seq<char>| registry@[n].network is Some),
            out.deep_view() == ks.take(i as int).filter(pred),
    {
        let u = registry.unit_at(i);
        let k = registry.key_at(i);
        let ghost before = out.deep_view();
        proof {
            ks.take(i as int).lemma_filter_push(ks[i as int], pred);
            assert(ks.take(i + 1) =~= ks.take(i as int).push(ks[i as int]));
        }
        if u.is_network() {
            out.push(k.clone());
            proof {
                assert(out.deep_view() =~= before.push(ks[i as int]));
            }
        }
    }
    proof {
        assert(ks.take(n as int) =~= ks);
    }
    out
}


/// What each restart policy asks for: "no" never restarts, whatever the
/// exit; "always" restarts on every exit; "on-failure" exactly on a non-zero
/// status; "on-abnormal" exactly when a signal ended the process.
pub proof fn restart_policy_meaning(policy: RestartPolicy, exit: ChildExit)
    ensures
        policy == RestartPolicy::No ==> !restart_wanted(policy, exit),
        policy == RestartPolicy::Always ==> restart_wanted(policy, exit),
        policy == RestartPolicy::OnFailure ==> (restart_wanted(policy, exit) <==> exit.status != 0),
        policy == RestartPolicy::OnAbnormal ==> (restart_wanted(policy, exit) <==> exit.was_signaled),
        restart_wanted(policy, exit) ==> policy != RestartPolicy::No,
{
}

/// Whether a service is restarted after a process exit, by its policy.
pub open spec fn restart_wanted(policy: RestartPolicy, exit: ChildExit) -> bool {
    match policy {
        RestartPolicy::Always => true,
        RestartPolicy::OnFailure => exit.status != 0,
        RestartPolicy::OnAbnormal => exit.was_signaled,
        RestartPolicy::No => false,
    }
}

pub fn should_restart(policy: RestartPolicy, exit: &ChildExit) -> (r: bool)
    ensures
        r == restart_wanted(policy, *exit),
        r == (policy == RestartPolicy::Always || (policy == RestartPolicy::OnFailure && exit.status != 0)
            || (policy == RestartPolicy::OnAbnormal && exit.was_signaled)),
{
    proof {
        restart_policy_meaning(policy, *exit);
    }
    match policy {
        RestartPolicy::Always => true,
        RestartPolicy::OnFailure => exit.status != 0,
        RestartPolicy::OnAbnormal => exit.was_signaled,
        RestartPolicy::No => false,
    }
}

/// The span in which restarts are counted, in nanoseconds (10 s).
pub const RESTART_WINDOW_NS: u64 = 10_000_000_000;

/// The most restarts of one unit allowed within the window.
pub const RESTART_MAX_BURST: usize = 5;

/// The restart at time `t` lies within the window that ends at `now`; a time
/// after `now` counts as no time ago.
pub open spec fn within_window(t: u64, now: u64) -> bool {
    (if t <= now {
        now - t
    } else {
        0
    }) < RESTART_WINDOW_NS
}

/// The restart times of `ts` that lie within the window ending at `now`.
pub open spec fn recent(ts: Seq<u64>, now: u64) -> Seq<u64> {
    ts.filter(|t: u64| within_window(t, now))
}

/// Position of `name` in `keys`.
fn position(keys: &Vec<String>, name: &str) -> (r: Option<usize>)
    ensures
        match r {
            Some(i) => i < keys.len() && keys.deep_view()[i as int] == name@,
            None => !keys.deep_view().contains(name@),
        },
{
    let mut i: usize = 0;
    while i < keys.len()
        invariant
            i <= keys.len(),
            forall|j: int| 0 <= j < i ==> keys.deep_view()[j] != name@,
        decreases keys.len() - i,
    {
        if str_eq(keys[i].as_str(), name) {
            return Some(i);
        }
        i = i + 1;
    }
    None
}

/// The restart history of each unit, for rate limiting.
pub struct RestartLimiter {
    keys: Vec<String>,
    stamps: Vec<Vec<u64>>,
}

pub open spec fn stamp_map(keys: Seq<Seq<char>>, stamps: Seq<Vec<u64>>) -> Map<Seq<char>, Seq<u64>> {
    Map::new(|k: Seq<char>| keys.contains(k), |k: Seq<char>| stamps[keys.index_of(k)]@)
}

proof fn lemma_stamp_map_at(keys: Seq<Seq<char>>, stamps: Seq<Vec<u64>>, i: int)
    requires
        keys.no_duplicates(),
        0 <= i < keys.len(),
    ensures
        stamp_map(keys, stamps).dom().contains(keys[i]),
        stamp_map(keys, stamps)[keys[i]] == stamps[i]@,
{
    assert(keys.contains(keys[i]));
    let j = keys.index_of(keys[i]);
    assert(keys[j] == keys[i]);
}

/// The history of a unit, empty when it has none.
pub open spec fn history(m: Map<Seq<char>, Seq<u64>>, name: Seq<char>) -> Seq<u64> {
    if m.dom().contains(name) {
        m[name]
    } else {
        Seq::empty()
    }
}

impl RestartLimiter {
    #[verifier::type_invariant]
    closed spec fn well_formed(&self) -> bool {
        &&& self.keys.len() == self.stamps.len()
        &&& self.keys.deep_view().no_duplicates()
    }

    pub fn new() -> (r: RestartLimiter)
        ensures
            r@ == Map::<Seq<char>, Seq<u64>>::empty(),
    {
        let r = RestartLimiter { keys: Vec::new(), stamps: Vec::new() };
        assert(r@ =~= Map::<Seq<char>, Seq<u64>>::empty());
        r
    }

    /// Records a restart of `name` at `now` and says whether it is allowed:
    /// restarts older than the window are forgotten, and the restart is
    /// allowed when, with it, no more than `RESTART_MAX_BURST` remain.
    pub fn record_restart(&mut self, name: &str, now: u64) -> (allowed: bool)
        ensures
            final(self)@ == old(self)@.insert(name@, recent(history(old(self)@, name@), now).push(now)),
            allowed == (recent(history(old(self)@, name@), now).len() + 1 <= RESTART_MAX_BURST),
    {
        proof {
            use_type_invariant(&*self);
        }
        let ghost ok = self.keys.deep_view();
        let ghost os = self.stamps@;
        let pos = position(&self.keys, name);
        let found = pos.is_some();
        let i: usize = match pos {
            Some(p) => p,
            None => 0,
        };
        let mut taken = RestartLimiter { keys: Vec::new(), stamps: Vec::new() };
        std::mem::swap(self, &mut taken);
        let RestartLimiter { mut keys, mut stamps } = taken;
        let mut prev: Vec<u64> = Vec::new();
        if found {
            stamps.set_and_swap(i, &mut prev);
            proof {
                lemma_stamp_map_at(ok, os, i as int);
            }
        } else {
            proof {
                assert(!ok.contains(name@));
            }
        }
        let ghost pv = prev@;
        proof {
            assert(pv == history(stamp_map(ok, os), name@));
        }
        let mut kept: Vec<u64> = Vec::new();
        for j in 0..prev.len()
            invariant
                pv == prev@,
                kept@ == recent(pv.take(j as int), now),
        {
            let t = prev[j];
            proof {
                pv.take(j as int).lemma_filter_push(t, |t: u64| within_window(t, now));
                assert(pv.take(j + 1) =~= pv.take(j as int).push(t));
            }
            let age = if t <= now {
                now - t
            } else {
                0
            };
            if age < RESTART_WINDOW_NS {
                kept.push(t);
            }
        }
        proof {
            assert(pv.take(pv.len() as int) =~= pv);
        }
        kept.push(now);
        let allowed = kept.len() <= RESTART_MAX_BURST;
        let ghost kv = kept@;
        if found {
            stamps.set_and_swap(i, &mut kept);
            proof {
                let m = stamp_map(keys.deep_view(), stamps@);
                assert(keys.deep_view() == ok);
                assert forall|k: Seq<char>| #[trigger] m.dom().contains(k) implies m[k] == stamp_map(ok, os).insert(name@, kv)[k] by {
                    let j = ok.index_of(k);
                    assert(ok[j] == k);
                    lemma_stamp_map_at(ok, os, j);
                    lemma_stamp_map_at(ok, stamps@, j);
                }
                assert(m =~= stamp_map(ok, os).insert(name@, kv));
            }
        } else {
            keys.push(String::from_str(name));
            stamps.push(kept);
            proof {
                assert(keys.deep_view() =~= ok.push(name@));
                let m = stamp_map(keys.deep_view(), stamps@);
                let target = stamp_map(ok, os).insert(name@, kv);
                assert forall|k: Seq<char>| #[trigger] m.dom().contains(k) implies m[k] == target[k] by {
                    let j = keys.deep_view().index_of(k);
                    assert(keys.deep_view()[j] == k);
                    lemma_stamp_map_at(keys.deep_view(), stamps@, j);
                    if j < ok.len() {
                        lemma_stamp_map_at(ok, os, j);
                    }
                }
                assert forall|k: Seq<char>| target.dom().contains(k) implies #[trigger] m.dom().contains(k) by {
                    if k != name@ {
                        let j = ok.index_of(k);
                        assert(ok[j] == k);
                        assert(keys.deep_view()[j] == k);
                    } else {
                        assert(keys.deep_view()[ok.len() as int] == name@);
                    }
                }
                assert(m =~= target);
            }
        }
        *self = RestartLimiter { keys, stamps };
        allowed
    }
}

impl View for RestartLimiter {
    type V = Map<Seq<char>, Seq<u64>>;

    closed spec fn view(&self) -> Map<Seq<char>, Seq<u64>> {
        stamp_map(self.keys.deep_view(), self.stamps@)
    }
}

/// A unit's restart history after restarts at each of `times` in turn,
/// starting from the history `h`: each restart forgets the restarts outside
/// the window and records itself, as `record_restart` does.
pub open spec fn history_after(h: Seq<u64>, times: Seq<u64>) -> Seq<u64>
    decreases times.len(),
{
    if times.len() == 0 {
        h
    } else {
        recent(history_after(h, times.drop_last()), times.last()).push(times.last())
    }
}

/// A unit's history after a restart holds only restarts within the window
/// that ends at that restart: older ones are forgotten.
pub proof fn history_keeps_only_recent(h: Seq<u64>, now: u64, i: int)
    requires
        0 <= i < recent(h, now).push(now).len(),
    ensures
        within_window(recent(h, now).push(now)[i], now),
{
    if i < recent(h, now).len() {
        h.lemma_filter_pred(|t: u64| within_window(t, now), i);
    }
}

/// Whether the restart at `times[i]` is allowed, after the ones before it.
pub open spec fn restart_allowed_at(h: Seq<u64>, times: Seq<u64>, i: int) -> bool {
    recent(history_after(h, times.take(i)), times[i]).len() + 1 <= RESTART_MAX_BURST
}

proof fn lemma_recent_keeps(ts: Seq<u64>, now: u64)
    requires
        forall|j: int| 0 <= j < ts.len() ==> within_window(#[trigger] ts[j], now),
    ensures
        recent(ts, now) == ts,
    decreases ts.len(),
{
    if ts.len() > 0 {
        lemma_recent_keeps(ts.drop_last(), now);
        ts.drop_last().lemma_filter_push(ts.last(), |t: u64| within_window(t, now));
        assert(ts =~= ts.drop_last().push(ts.last()));
    }
}

proof fn lemma_history_ends_with(h: Seq<u64>, times: Seq<u64>, i: int)
    requires
        0 <= i <= times.len(),
        times.len() > 0,
        forall|a: int, b: int| 0 <= a <= b < times.len() ==> times[a] <= times[b],
        times.last() - times[0] < RESTART_WINDOW_NS,
    ensures
        exists|p: Seq<u64>| #[trigger] (p + times.take(i)) == history_after(h, times.take(i)),
    decreases i,
{
    if i == 0 {
        assert(h + times.take(0) =~= h);
        assert(times.take(0) =~= Seq::<u64>::empty());
    } else {
        lemma_history_ends_with(h, times, i - 1);
        let t = times[i - 1];
        let prev = times.take(i - 1);
        let p = choose|p: Seq<u64>| #[trigger] (p + prev) == history_after(h, prev);
        assert(times.take(i).drop_last() =~= prev);
        assert(times.take(i).last() == t);
        let pred = |x: u64| within_window(x, t);
        Seq::filter_distributes_over_add(p, prev, pred);
        assert forall|j: int| 0 <= j < prev.len() implies within_window(#[trigger] prev[j], t) by {
            assert(times[0] <= prev[j] <= t <= times.last());
        }
        lemma_recent_keeps(prev, t);
        let q = recent(p, t);
        assert(q + times.take(i) =~= (q + prev).push(t));
        assert(q + times.take(i) == history_after(h, times.take(i)));
    }
}

/// Restarts are rate limited: among restarts of one unit that all fall
/// within one window, in time order, only the first `RESTART_MAX_BURST` can
/// be allowed, whatever the history before them.
pub proof fn restart_burst_bounded(h: Seq<u64>, times: Seq<u64>, i: int)
    requires
        0 <= i < times.len(),
        forall|a: int, b: int| 0 <= a <= b < times.len() ==> times[a] <= times[b],
        times.last() - times[0] < RESTART_WINDOW_NS,
        restart_allowed_at(h, times, i),
    ensures
        i < RESTART_MAX_BURST,
{
    lemma_history_ends_with(h, times, i);
    let prev = times.take(i);
    let p = choose|p: Seq<u64>| #[trigger] (p + prev) == history_after(h, prev);
    let t = times[i];
    Seq::filter_distributes_over_add(p, prev, |x: u64| within_window(x, t));
    assert forall|j: int| 0 <= j < prev.len() implies within_window(#[trigger] prev[j], t) by {
        assert(times[0] <= prev[j] <= t <= times.last());
    }
    lemma_recent_keeps(prev, t);
    assert(recent(history_after(h, prev), t) == recent(p, t) + prev);
}

/// What follows the exit of a supervised process.
#[derive(Debug, PartialEq, Eq)]
pub enum RestartDecision {
    /// The process belonged to no known unit.
    Untracked,
    /// The unit is not (or no longer) a loaded service.
    NotAService(String),
    /// The restart policy does not ask for a restart.
    NoRestart(String),
    /// Too many restarts within the window: the unit stays down.
    RateLimited(String),
    /// Restart the unit after `delay_sec` seconds.
    Restart { name: String, delay_sec: u32 },
}

/// Reaps one exited child: forgets its process, and decides whether its
/// service restarts, by the restart policy and the restart rate limit.
pub fn child_exited(
    pids: &mut ProcessTable,
    limiter: &mut RestartLimiter,
    registry: &UnitRegistry,
    exit: &ChildExit,
    now: u64,
) -> (r: RestartDecision)
    ensures
        final(pids)@ == old(pids)@.remove(exit.pid),
        !old(pids)@.dom().contains(exit.pid) ==> r == RestartDecision::Untracked && final(limiter)@ == old(limiter)@,
        old(pids)@.dom().contains(exit.pid) ==> {
            let name = old(pids)@[exit.pid];
            if !registry@.dom().contains(name) || registry@[name].service is None {
                &&& r matches RestartDecision::NotAService(n) && n@ == name
                &&& final(limiter)@ == old(limiter)@
            } else {
                let svc = registry@[name].service.unwrap();
                if !restart_wanted(svc.restart, *exit) {
                    &&& r matches RestartDecision::NoRestart(n) && n@ == name
                    &&& final(limiter)@ == old(limiter)@
                } else {
                    let rec = recent(history(old(limiter)@, name), now);
                    &&& final(limiter)@ == old(limiter)@.insert(name, rec.push(now))
                    &&& if rec.len() + 1 <= RESTART_MAX_BURST {
                        r matches RestartDecision::Restart { name: n, delay_sec } && n@ == name && delay_sec
                            == svc.restart_sec
                    } else {
                        r matches RestartDecision::RateLimited(n) && n@ == name
                    }
                }
            }
        },
        (r is Restart || r is RateLimited) ==> {
            let svc = registry@[old(pids)@[exit.pid]].service.unwrap();
            svc.restart == RestartPolicy::Always || (svc.restart == RestartPolicy::OnFailure && exit.status
                != 0) || (svc.restart == RestartPolicy::OnAbnormal && exit.was_signaled)
        },
{
    let name = match pids.remove(exit.pid) {
        Some(n) => n,
        None => {
            return RestartDecision::Untracked;
        },
    };
    let svc = match registry.get(name.as_str()) {
        Some(u) => match &u.service {
            Some(s) => s,
            None => {
                return RestartDecision::NotAService(name);
            },
        },
        None => {
            return RestartDecision::NotAService(name);
        },
    };
    if !should_restart(svc.restart, exit) {
        return RestartDecision::NoRestart(name);
    }
    if limiter.record_restart(name.as_str(), now) {
        RestartDecision::Restart { name, delay_sec: svc.restart_sec }
    } else {
        RestartDecision::RateLimited(name)
    }
}

/// The signals that PID 1 handles.
#[derive(Debug, Clone, Copy, PartialEq, Eq, Structural)]
pub enum SignalKind {
    Child,
    Terminate,
    Interrupt,
    Hangup,
    PowerFailure,
    Other,
}

/// What a signal asks of the supervisor.
#[derive(Debug, Clone, Copy, PartialEq, Eq, Structural)]
pub enum SignalAction {
    /// Reap exited children and restart services.
    Reap,
    /// Stop all services gracefully and power off.
    Shutdown,
    /// Reload the unit files.
    Reload,
    /// Kill all services at once and power off.
    EmergencyShutdown,
    Ignore,
}

/// What each signal asks of the supervisor.
pub open spec fn action_of(k: SignalKind) -> SignalAction {
    match k {
        SignalKind::Child => SignalAction::Reap,
        SignalKind::Terminate | SignalKind::Interrupt => SignalAction::Shutdown,
        SignalKind::Hangup => SignalAction::Reload,
        SignalKind::PowerFailure => SignalAction::EmergencyShutdown,
        SignalKind::Other => SignalAction::Ignore,
    }
}

/// Whether the event loop goes on after an action: not once it powers off.
pub open spec fn continues_after(a: SignalAction) -> bool {
    !(a == SignalAction::Shutdown || a == SignalAction::EmergencyShutdown)
}

pub fn signal_action(k: SignalKind) -> (r: SignalAction)
    ensures
        r == action_of(k),
{
    match k {
        SignalKind::Child => SignalAction::Reap,
        SignalKind::Terminate | SignalKind::Interrupt => SignalAction::Shutdown,
        SignalKind::Hangup => SignalAction::Reload,
        SignalKind::PowerFailure => SignalAction::EmergencyShutdown,
        SignalKind::Other => SignalAction::Ignore,
    }
}

/// The event loop keeps running after an action unless it powers off.
pub fn keeps_running(a: SignalAction) -> (r: bool)
    ensures
        r == continues_after(a),
{
    match a {
        SignalAction::Shutdown | SignalAction::EmergencyShutdown => false,
        _ => true,
    }
}

/// Whether the event loop still runs after handling `kinds`, having run
/// before them as `running` says: it stops on the first signal that powers
/// off, and nothing makes it run again.
pub open spec fn runs_after(running: bool, kinds: Seq<SignalKind>) -> bool {
    running && forall|i: int| 0 <= i < kinds.len() ==> continues_after(#[trigger] action_of(kinds[i]))
}

/// The handling of the signals read at once: the action of each, in the
/// order they came, and whether the event loop runs on after them.
pub fn signal_batch(kinds: &Vec<SignalKind>, running: bool) -> (r: (Vec<SignalAction>, bool))
    ensures
        r.0@ == kinds@.map_values(|k: SignalKind| action_of(k)),
        r.1 == runs_after(running, kinds@),
{
    let mut actions: Vec<SignalAction> = Vec::new();
    let mut run = running;
    for i in 0..kinds.len()
        invariant
            actions@ == kinds@.take(i as int).map_values(|k: SignalKind| action_of(k)),
            run == runs_after(running, kinds@.take(i as int)),
    {
        let a = signal_action(kinds[i]);
        let ghost before = actions@;
        actions.push(a);
        if !keeps_running(a) {
            run = false;
        }
        proof {
            let t = kinds@.take(i + 1);
            assert(t =~= kinds@.take(i as int).push(kinds@[i as int]));
            assert(actions@ =~= t.map_values(|k: SignalKind| action_of(k)));
            if run {
                assert forall|j: int| 0 <= j < t.len() implies continues_after(#[trigger] action_of(t[j])) by {
                    if j < i {
                        assert(t[j] == kinds@.take(i as int)[j]);
                    }
                }
            } else if running && forall|j: int| 0 <= j < t.len() ==> continues_after(#[trigger] action_of(t[j])) {
                assert(continues_after(action_of(t[i as int])));
                assert forall|j: int| 0 <= j < i implies continues_after(#[trigger] action_of(kinds@.take(i as int)[j])) by {
                    assert(kinds@.take(i as int)[j] == t[j]);
                }
            }
        }
    }
    proof {
        assert(kinds@.take(kinds@.len() as int) =~= kinds@);
    }
    (actions, run)
}

/// Once the event loop has stopped, it never runs again, whatever signals
/// follow.
pub proof fn stopped_loop_stays_stopped(running: bool, first: Seq<SignalKind>, later: Seq<SignalKind>)
    requires
        !runs_after(running, first),
    ensures
        !runs_after(running, first + later),
{
    if running {
        let i = choose|i: int| 0 <= i < first.len() && !continues_after(#[trigger] action_of(first[i]));
        assert((first + later)[i] == first[i]);
    }
}

/// The supervisor stops exactly on SIGTERM, SIGINT and SIGPWR; every other
/// signal leaves the event loop running.
pub proof fn stops_only_on_power_off(k: SignalKind)
    ensures
        !continues_after(action_of(k)) <==> (k == SignalKind::Terminate || k == SignalKind::Interrupt || k
            == SignalKind::PowerFailure),
{
}

/// How many reap rounds the graceful shutdown waits for the services to exit
/// after SIGTERM, one every `SHUTDOWN_POLL_MS` (10 s in all).
pub const SHUTDOWN_POLLS: u32 = 100;

/// The pause between two reap rounds of the graceful shutdown.
pub const SHUTDOWN_POLL_MS: u64 = 100;

/// The pause between SIGKILL and the last reap round.
pub const KILL_SETTLE_MS: u64 = 200;

/// What the graceful shutdown does after a reap round.
#[derive(Debug, Clone, Copy, PartialEq, Eq, Structural)]
pub enum ShutdownStep {
    /// Every service has exited: sync and power off.
    PowerOff,
    /// Pause `SHUTDOWN_POLL_MS`, then reap again.
    Wait,
    /// Pause `SHUTDOWN_POLL_MS`, then SIGKILL the remaining services, pause
    /// `KILL_SETTLE_MS`, reap once more and power off.
    Kill,
}

/// The step after reap round `round` (counting from 1) of the graceful
/// shutdown, with `remaining` services still running.
pub open spec fn shutdown_step_of(round: u32, remaining: nat) -> ShutdownStep {
    if remaining == 0 {
        ShutdownStep::PowerOff
    } else if round < SHUTDOWN_POLLS {
        ShutdownStep::Wait
    } else {
        ShutdownStep::Kill
    }
}

pub fn shutdown_step(round: u32, remaining: usize) -> (r: ShutdownStep)
    ensures
        r == shutdown_step_of(round, remaining as nat),
{
    if remaining == 0 {
        ShutdownStep::PowerOff
    } else if round < SHUTDOWN_POLLS {
        ShutdownStep::Wait
    } else {
        ShutdownStep::Kill
    }
}

/// The graceful shutdown ends: from the last round on, it never waits again.
pub proof fn shutdown_waits_boundedly(round: u32, remaining: nat)
    requires
        round >= SHUTDOWN_POLLS,
    ensures
        shutdown_step_of(round, remaining) != ShutdownStep::Wait,
{
}

} // verus!
