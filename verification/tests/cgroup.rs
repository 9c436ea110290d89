use rinit::cgroup::CgroupHandle;

#[test]
fn cgroup_of_a_service() {
    let h = CgroupHandle::new("sshd");
    assert_eq!(h.name, "init-sshd.slice");
    assert_eq!(h.path, "/sys/fs/cgroup/init-sshd.slice");
}

#[test]
fn cgroup_limits_and_membership() {
    let h = CgroupHandle::new("web");
    let m = h.set_memory_max("512M");
    assert_eq!(m.path, "/sys/fs/cgroup/init-web.slice/memory.max");
    assert_eq!(m.value, "512M");
    let c = h.set_cpu_weight(100);
    assert_eq!(c.path, "/sys/fs/cgroup/init-web.slice/cpu.weight");
    assert_eq!(c.value, "100");
    let p = h.set_pids_max(4294967295);
    assert_eq!(p.path, "/sys/fs/cgroup/init-web.slice/pids.max");
    assert_eq!(p.value, "4294967295");
    let a = h.attach_process(1234);
    assert_eq!(a.path, "/sys/fs/cgroup/init-web.slice/cgroup.procs");
    assert_eq!(a.value, "1234");
}

#[test]
fn control_paths_join_like_paths() {
    let mut h = CgroupHandle::new("x");
    assert_eq!(h.write_control("/abs/file", "1").path, "/abs/file");
    h.path = "/tmp/cg/".to_string();
    assert_eq!(h.write_control("memory.max", "1").path, "/tmp/cg/memory.max");
    h.path = String::new();
    assert_eq!(h.write_control("memory.max", "1").path, "memory.max");
}
