use rinit::deps::{DepError, UnitRegistry};
use rinit::process::{ChildExit, ProcessTable};
use rinit::supervisor::{
    child_exited, default_target_plan, keeps_running, network_action, network_units, service_command,
    should_restart, shutdown_step, signal_action, signal_batch, NetworkAction, PlanError, RestartDecision,
    RestartLimiter, ShutdownStep, SignalAction, SignalKind, StartError, RESTART_MAX_BURST,
    RESTART_WINDOW_NS,
};
use rinit::types::{NetworkSection, RestartPolicy, ServiceSection, ServiceType, Unit, UnitSection};

fn strings(v: &[&str]) -> Vec<String> {
    v.iter().map(|s| s.to_string()).collect()
}

fn service(exec: &[&str], restart: RestartPolicy, restart_sec: u32) -> ServiceSection {
    ServiceSection {
        exec_start: strings(exec),
        exec_stop: None,
        exec_reload: None,
        service_type: ServiceType::Simple,
        restart,
        restart_sec,
        working_directory: None,
        environment: std::collections::HashMap::new(),
        tty: None,
        tty_baud: None,
        oom_score_adj: 0,
        memory_max: None,
        cpu_weight: None,
        tasks_max: None,
    }
}

fn unit(name: &str, requires: &[&str], wants: &[&str]) -> Unit {
    Unit {
        name: name.to_string(),
        unit: UnitSection { requires: strings(requires), wants: strings(wants), ..Default::default() },
        service: None,
        socket: None,
        mount: None,
        network: None,
    }
}

fn service_unit(name: &str, requires: &[&str], restart: RestartPolicy, restart_sec: u32) -> Unit {
    let mut u = unit(name, requires, &[]);
    u.service = Some(service(&["/bin/true"], restart, restart_sec));
    u
}

fn add(reg: &mut UnitRegistry, u: Unit) {
    reg.insert(u.name.clone(), u);
}

#[test]
fn plan_starts_wanted_units_and_their_dependencies_in_order() {
    let mut reg = UnitRegistry::new();
    add(&mut reg, unit("default.target", &[], &["a.service", "missing.service"]));
    add(&mut reg, unit("a.service", &["b.service"], &[]));
    add(&mut reg, unit("b.service", &[], &["c.service"]));
    add(&mut reg, unit("c.service", &[], &[]));
    add(&mut reg, unit("unused.service", &[], &[]));
    let plan = default_target_plan(&reg).unwrap();
    assert_eq!(plan.layers, vec![strings(&["c.service"]), strings(&["b.service"]), strings(&["a.service"])]);
    assert!(plan.configure_networks);
}

#[test]
fn plan_without_default_target() {
    let mut reg = UnitRegistry::new();
    add(&mut reg, unit("a.service", &[], &[]));
    assert!(matches!(default_target_plan(&reg), Err(PlanError::NoDefaultTarget)));
}

#[test]
fn plan_of_a_target_that_wants_nothing_is_empty() {
    let mut reg = UnitRegistry::new();
    add(&mut reg, unit("default.target", &["a.service"], &[]));
    add(&mut reg, unit("a.service", &[], &[]));
    let plan = default_target_plan(&reg).unwrap();
    assert_eq!(plan.layers.len(), 0);
    assert!(!plan.configure_networks);
}

#[test]
fn plan_of_only_missing_units_still_configures_networks() {
    let mut reg = UnitRegistry::new();
    add(&mut reg, unit("default.target", &[], &["gone.service"]));
    let plan = default_target_plan(&reg).unwrap();
    assert!(plan.layers.is_empty());
    assert!(plan.configure_networks);
}

#[test]
fn plan_reports_units_that_cannot_start() {
    let mut reg = UnitRegistry::new();
    add(&mut reg, unit("default.target", &[], &["a.service", "c.service"]));
    add(&mut reg, unit("a.service", &["b.service"], &[]));
    add(&mut reg, unit("b.service", &["a.service"], &[]));
    add(&mut reg, unit("c.service", &[], &[]));
    match default_target_plan(&reg) {
        Err(PlanError::Dependency(DepError::Cycle(mut names))) => {
            names.sort();
            assert_eq!(names, strings(&["a.service", "b.service"]));
        }
        _ => panic!("a dependency cycle must be refused"),
    }
}

#[test]
fn service_command_splits_program_and_arguments() {
    let svc = service(&["/usr/sbin/nginx", "-g", "daemon off;"], RestartPolicy::No, 0);
    let c = service_command("nginx.service", &svc).unwrap();
    assert_eq!(c.path, "/usr/sbin/nginx");
    assert_eq!(c.args, strings(&["-g", "daemon off;"]));
    assert!(c.terminal.is_none());
}

#[test]
fn service_command_on_a_terminal_defaults_to_115200_baud() {
    let mut svc = service(&["/bin/sh"], RestartPolicy::No, 0);
    svc.tty = Some("ttyAMA0".to_string());
    let c = service_command("getty.service", &svc).unwrap();
    assert!(c.args.is_empty());
    let t = c.terminal.unwrap();
    assert_eq!(t.device, "ttyAMA0");
    assert_eq!(t.baud, 115200);
    svc.tty_baud = Some(9600);
    assert_eq!(service_command("getty.service", &svc).unwrap().terminal.unwrap().baud, 9600);
}

#[test]
fn service_command_refuses_empty_exec_start() {
    let svc = service(&[], RestartPolicy::No, 0);
    assert_eq!(
        service_command("broken.service", &svc).err(),
        Some(StartError::EmptyExecStart("broken.service".to_string()))
    );
}

fn net(dhcp: bool, address: Option<&str>, gateway: Option<&str>, dns: Option<&[&str]>) -> NetworkSection {
    NetworkSection {
        name: "eth0".to_string(),
        dhcp,
        address: address.map(|s| s.to_string()),
        gateway: gateway.map(|s| s.to_string()),
        dns: dns.map(strings),
    }
}

#[test]
fn network_action_prefers_dhcp() {
    match network_action(&net(true, Some("10.0.0.2/24"), None, None)) {
        NetworkAction::Dhcp(i) => assert_eq!(i, "eth0"),
        _ => panic!("dhcp expected"),
    }
}

#[test]
fn network_action_static_address() {
    match network_action(&net(false, Some("10.0.0.2/24"), Some("10.0.0.1"), Some(&["1.1.1.1"]))) {
        NetworkAction::Static { ifname, address, gateway, dns } => {
            assert_eq!(ifname, "eth0");
            assert_eq!(address, "10.0.0.2/24");
            assert_eq!(gateway.as_deref(), Some("10.0.0.1"));
            assert_eq!(dns, strings(&["1.1.1.1"]));
        }
        _ => panic!("static expected"),
    }
    match network_action(&net(false, Some("10.0.0.2"), None, None)) {
        NetworkAction::Static { gateway, dns, .. } => {
            assert!(gateway.is_none());
            assert!(dns.is_empty());
        }
        _ => panic!("static expected"),
    }
}

#[test]
fn network_action_without_configuration() {
    assert!(matches!(network_action(&net(false, None, None, None)), NetworkAction::Unconfigured));
}

#[test]
fn network_units_in_registry_order() {
    let mut reg = UnitRegistry::new();
    let mut n1 = unit("wan.network", &[], &[]);
    n1.network = Some(net(true, None, None, None));
    let mut n2 = unit("lan.network", &[], &[]);
    n2.network = Some(net(false, Some("10.0.0.2"), None, None));
    add(&mut reg, n1);
    add(&mut reg, unit("a.service", &[], &[]));
    add(&mut reg, n2);
    assert_eq!(network_units(&reg), strings(&["wan.network", "lan.network"]));
}

#[test]
fn restart_policies() {
    let ok = ChildExit { pid: 1, status: 0, was_signaled: false };
    let failed = ChildExit { pid: 1, status: 3, was_signaled: false };
    let killed = ChildExit { pid: 1, status: 137, was_signaled: true };
    assert!(should_restart(RestartPolicy::Always, &ok));
    assert!(!should_restart(RestartPolicy::OnFailure, &ok));
    assert!(should_restart(RestartPolicy::OnFailure, &failed));
    assert!(should_restart(RestartPolicy::OnFailure, &killed));
    assert!(!should_restart(RestartPolicy::OnAbnormal, &failed));
    assert!(should_restart(RestartPolicy::OnAbnormal, &killed));
    assert!(!should_restart(RestartPolicy::No, &killed));
}

#[test]
fn limiter_allows_a_burst_then_refuses() {
    let mut l = RestartLimiter::new();
    let t = 1_000_000_000u64;
    for i in 0..RESTART_MAX_BURST as u64 {
        assert!(l.record_restart("a.service", t + i));
    }
    assert!(!l.record_restart("a.service", t + 10));
    assert!(l.record_restart("b.service", t + 10));
}

#[test]
fn limiter_forgets_restarts_outside_the_window() {
    let mut l = RestartLimiter::new();
    for _ in 0..RESTART_MAX_BURST {
        assert!(l.record_restart("a.service", 0));
    }
    assert!(!l.record_restart("a.service", RESTART_WINDOW_NS - 1));
    assert!(l.record_restart("a.service", 2 * RESTART_WINDOW_NS));
}

#[test]
fn exit_of_an_unknown_process() {
    let mut pids = ProcessTable::new();
    let mut l = RestartLimiter::new();
    let reg = UnitRegistry::new();
    let d = child_exited(&mut pids, &mut l, &reg, &ChildExit { pid: 42, status: 0, was_signaled: false }, 0);
    assert_eq!(d, RestartDecision::Untracked);
}

#[test]
fn exit_decisions_follow_policy_and_limit() {
    let mut reg = UnitRegistry::new();
    add(&mut reg, service_unit("web.service", &[], RestartPolicy::Always, 5));
    add(&mut reg, service_unit("job.service", &[], RestartPolicy::No, 0));
    add(&mut reg, unit("multi-user.target", &[], &[]));
    let mut pids = ProcessTable::new();
    let mut l = RestartLimiter::new();
    pids.insert(10, "web.service".to_string());
    pids.insert(11, "job.service".to_string());
    pids.insert(12, "multi-user.target".to_string());
    let exit = |pid| ChildExit { pid, status: 1, was_signaled: false };
    assert_eq!(
        child_exited(&mut pids, &mut l, &reg, &exit(10), 0),
        RestartDecision::Restart { name: "web.service".to_string(), delay_sec: 5 }
    );
    assert!(pids.get(10).is_none());
    assert_eq!(
        child_exited(&mut pids, &mut l, &reg, &exit(11), 0),
        RestartDecision::NoRestart("job.service".to_string())
    );
    assert_eq!(
        child_exited(&mut pids, &mut l, &reg, &exit(12), 0),
        RestartDecision::NotAService("multi-user.target".to_string())
    );
    assert!(pids.is_empty());
    for i in 1..RESTART_MAX_BURST as i32 {
        pids.insert(100 + i, "web.service".to_string());
        assert!(matches!(
            child_exited(&mut pids, &mut l, &reg, &exit(100 + i), 1),
            RestartDecision::Restart { .. }
        ));
    }
    pids.insert(200, "web.service".to_string());
    assert_eq!(
        child_exited(&mut pids, &mut l, &reg, &exit(200), 2),
        RestartDecision::RateLimited("web.service".to_string())
    );
}

#[test]
fn signals_and_their_actions() {
    assert_eq!(signal_action(SignalKind::Child), SignalAction::Reap);
    assert_eq!(signal_action(SignalKind::Terminate), SignalAction::Shutdown);
    assert_eq!(signal_action(SignalKind::Interrupt), SignalAction::Shutdown);
    assert_eq!(signal_action(SignalKind::Hangup), SignalAction::Reload);
    assert_eq!(signal_action(SignalKind::PowerFailure), SignalAction::EmergencyShutdown);
    assert_eq!(signal_action(SignalKind::Other), SignalAction::Ignore);
}

#[test]
fn event_loop_stops_only_on_power_off_signals() {
    let kinds = [
        SignalKind::Child,
        SignalKind::Terminate,
        SignalKind::Interrupt,
        SignalKind::Hangup,
        SignalKind::PowerFailure,
        SignalKind::Other,
    ];
    for k in kinds {
        let stops = matches!(k, SignalKind::Terminate | SignalKind::Interrupt | SignalKind::PowerFailure);
        assert_eq!(keeps_running(signal_action(k)), !stops);
    }
}

#[test]
fn shutdown_waits_then_kills() {
    assert_eq!(shutdown_step(1, 0), ShutdownStep::PowerOff);
    assert_eq!(shutdown_step(1, 3), ShutdownStep::Wait);
    assert_eq!(shutdown_step(99, 3), ShutdownStep::Wait);
    assert_eq!(shutdown_step(100, 3), ShutdownStep::Kill);
    assert_eq!(shutdown_step(100, 0), ShutdownStep::PowerOff);
}

#[test]
fn signal_batch_acts_in_order_and_stops_for_good() {
    let (actions, running) = signal_batch(&vec![SignalKind::Child, SignalKind::Hangup], true);
    assert_eq!(actions, vec![SignalAction::Reap, SignalAction::Reload]);
    assert!(running);
    let (actions, running) =
        signal_batch(&vec![SignalKind::Terminate, SignalKind::Child, SignalKind::Other], true);
    assert_eq!(actions, vec![SignalAction::Shutdown, SignalAction::Reap, SignalAction::Ignore]);
    assert!(!running);
    let (_, running) = signal_batch(&vec![SignalKind::Child], false);
    assert!(!running);
    let (actions, running) = signal_batch(&vec![], true);
    assert!(actions.is_empty());
    assert!(running);
}
