use rinit::fs::{hostname_of, mount_fstab, parse_fstab, parse_mount_options, run_dirs, virtual_mounts, MountOptions};

const FSTAB: &str = "# static file system information\n\
    \n\
    /dev/sda1  /      ext4  defaults,noatime  0  1\n\
    proc /proc proc defaults 0 0\n\
    none /mnt/ram ramfs ro\r\n\
    /dev/sdb1 /data xfs\n\
    \t/dev/sdc1 /srv btrfs rw x 2\n";

#[test]
fn fstab_entries_in_order() {
    let e = parse_fstab(FSTAB);
    assert_eq!(e.len(), 3);
    assert_eq!(e[0].device, "/dev/sda1");
    assert_eq!(e[0].mountpoint, "/");
    assert_eq!(e[0].fstype, "ext4");
    assert_eq!(e[0].options, "defaults,noatime");
    assert_eq!((e[0].dump, e[0].pass), (0, 1));
    assert_eq!(e[1].device, "none");
    assert_eq!(e[1].options, "ro");
    assert_eq!((e[1].dump, e[1].pass), (0, 0));
    assert_eq!(e[2].fstype, "btrfs");
    assert_eq!((e[2].dump, e[2].pass), (0, 2));
}

#[test]
fn fstab_of_nothing() {
    assert!(parse_fstab("").is_empty());
    assert!(parse_fstab("# only a comment\n\n").is_empty());
}

#[test]
fn mount_options_flags() {
    let none = MountOptions {
        rdonly: false,
        nosuid: false,
        nodev: false,
        noexec: false,
        noatime: false,
        relatime: false,
        synchronous: false,
        dirsync: false,
        mandlock: false,
    };
    assert_eq!(parse_mount_options("rw,unknown"), none);
    assert_eq!(
        parse_mount_options("defaults"),
        MountOptions { nosuid: true, nodev: true, noexec: true, relatime: true, ..none }
    );
    assert_eq!(
        parse_mount_options(" ro , sync,dirsync,mand,noatime"),
        MountOptions { rdonly: true, synchronous: true, dirsync: true, mandlock: true, noatime: true, ..none }
    );
}

#[test]
fn fstab_mounts() {
    let m = mount_fstab(FSTAB);
    assert_eq!(m.len(), 3);
    assert_eq!(m[0].source.as_deref(), Some("/dev/sda1"));
    assert!(m[0].options.noatime && m[0].options.nosuid);
    assert_eq!(m[1].source, None);
    assert_eq!(m[1].target, "/mnt/ram");
    assert!(m[1].options.rdonly);
    assert!(m.iter().all(|x| x.data.is_none()));
}

#[test]
fn early_virtual_mounts() {
    let v = virtual_mounts();
    let targets: Vec<&str> = v.iter().map(|m| m.target.as_str()).collect();
    assert_eq!(targets, vec!["/proc", "/sys", "/dev", "/run", "/dev/pts"]);
    assert_eq!(v[2].data.as_deref(), Some("mode=0755"));
    assert_eq!(v[3].data.as_deref(), Some("mode=0755,size=10%"));
    assert_eq!(v[4].data.as_deref(), Some("gid=5,mode=0620"));
    assert!(v[0].options.noexec && v[0].options.nodev && v[0].options.nosuid);
    assert!(v[2].options.nosuid && !v[2].options.nodev && !v[2].options.noexec);
    assert!(v[4].options.noexec && !v[4].options.nodev);
}

#[test]
fn fstab_never_remounts_early_filesystems() {
    for m in virtual_mounts() {
        let line = format!("{} {} {} defaults 0 0\n", m.source.clone().unwrap(), m.target, m.fstype);
        assert!(parse_fstab(&line).is_empty());
    }
}

#[test]
fn runtime_directories() {
    assert_eq!(run_dirs(), vec!["/run/rinit", "/run/rinit/lock", "/run/rinit/units"]);
}

#[test]
fn host_name_from_file_or_default() {
    assert_eq!(hostname_of(Some("  box01\n")), "box01");
    assert_eq!(hostname_of(Some("\n")), "");
    assert_eq!(hostname_of(None), "localhost");
}
