//! Filesystem configuration: /etc/fstab entries, mount options, and the
//! mounts that early boot and /etc/fstab ask for.

use vstd::prelude::*;
use vstd::string::*;
use crate::text::{
    chars_of, parse_i32, parse_i32_in, pieces, range_eq, range_string, ranges_within, split_on,
    split_ranges, trim, trim_range, word_ranges, words,
};

verus! {

/// A single mount entry from /etc/fstab.
#[derive(Debug, Clone)]
pub struct FstabEntry {
    pub device: String,
    pub mountpoint: String,
    pub fstype: String,
    pub options: String,
    pub dump: i32,
    pub pass: i32,
}

/// Filesystem types that early boot mounts itself.
pub open spec fn virtual_fstype(t: Seq<char>) -> bool {
    t == "proc"@ || t == "sysfs"@ || t == "devtmpfs"@ || t == "tmpfs"@ || t == "devpts"@
}

/// A line that describes a filesystem to mount: not blank, not a comment,
/// at least four fields, and not a virtual filesystem.
pub open spec fn fstab_line_applies(line: Seq<char>) -> bool {
    let t = trim(line);
    let f = words(t);
    &&& t.len() > 0
    &&& t[0] != '#'
    &&& f.len() >= 4
    &&& !virtual_fstype(f[2])
}

/// An optional numeric field: its value, or 0 when absent or unreadable.
pub open spec fn number_or_zero(f: Seq<Seq<char>>, i: int) -> int {
    if i < f.len() {
        match parse_i32(f[i]) {
            Some(v) => v,
            None => 0,
        }
    } else {
        0
    }
}

/// The entry that an fstab line gives.
pub open spec fn entry_of_line(e: FstabEntry, line: Seq<char>) -> bool {
    let f = words(trim(line));
    &&& e.device@ == f[0]
    &&& e.mountpoint@ == f[1]
    &&& e.fstype@ == f[2]
    &&& e.options@ == f[3]
    &&& e.dump as int == number_or_zero(f, 4)
    &&& e.pass as int == number_or_zero(f, 5)
}

/// The lines of /etc/fstab that describe filesystems to mount.
pub open spec fn fstab_lines(content: Seq<char>) -> Seq<Seq<char>> {
    split_on(content, '\n').filter(|l: Seq<char>| fstab_line_applies(l))
}

fn is_virtual(s: &str, cs: &Vec<char>, a: usize, b: usize) -> (r: bool)
    requires
        cs@ == s@,
        a <= b <= cs@.len(),
    ensures
        r == virtual_fstype(cs@.subrange(a as int, b as int)),
{
    range_eq(s, cs, a, b, "proc") || range_eq(s, cs, a, b, "sysfs") || range_eq(s, cs, a, b, "devtmpfs")
        || range_eq(s, cs, a, b, "tmpfs") || range_eq(s, cs, a, b, "devpts")
}

fn number_field(cs: &Vec<char>, f: &Vec<(usize, usize)>, i: usize, from: usize, to: usize) -> (r: i32)
    requires
        ranges_within(f@, from as int, to as int),
        to <= cs@.len(),
    ensures
        r as int == number_or_zero(pieces(cs@, f@), i as int),
{
    if i < f.len() {
        let (a, b) = f[i];
        proof {
            assert(f@[i as int] == (a, b));
        }
        match parse_i32_in(cs, a, b) {
            Some(v) => v,
            None => 0,
        }
    } else {
        0
    }
}

/// The entries of /etc/fstab's text that describe filesystems to mount, in
/// order.
pub fn parse_fstab(content: &str) -> (r: Vec<FstabEntry>)
    ensures
        r@.len() == fstab_lines(content@).len(),
        forall|i: int| 0 <= i < r@.len() ==> entry_of_line(#[trigger] r@[i], fstab_lines(content@)[i]),
{
    let cs = chars_of(content);
    let n = cs.len();
    let lines = split_ranges(&cs, 0, n, '\n');
    let ghost ls = pieces(cs@, lines@);
    let ghost pred = |l: Seq<char>| fstab_line_applies(l);
    proof {
        assert(cs@.subrange(0, n as int) =~= content@);
    }
    let mut out: Vec<FstabEntry> = Vec::new();
    for i in 0..lines.len()
        invariant
            cs@ == content@,
            n == cs@.len(),
            ls == pieces(cs@, lines@),
            ls == split_on(content@, '\n'),
            ranges_within(lines@, 0, n as int),
            pred == (|l: Seq<char>| fstab_line_applies(l)),
            out@.len() == ls.take(i as int).filter(pred).len(),
            forall|j: int| 0 <= j < out@.len() ==> entry_of_line(#[trigger] out@[j], ls.take(i as int).filter(pred)[j]),
    {
        let (la, lb) = lines[i];
        let ghost line = ls[i as int];
        let ghost kept = ls.take(i as int).filter(pred);
        proof {
            assert(lines@[i as int] == (la, lb));
            assert(line == cs@.subrange(la as int, lb as int));
            ls.take(i as int).lemma_filter_push(line, pred);
            assert(ls.take(i + 1) =~= ls.take(i as int).push(line));
        }
        let (a, b) = trim_range(&cs, la, lb);
        let ghost t = trim(line);
        if a < b && cs[a] != '#' {
            let f = word_ranges(&cs, a, b);
            let ghost fs = pieces(cs@, f@);
            proof {
                assert(t == cs@.subrange(a as int, b as int));
                assert(t[0] == cs@[a as int]);
            }
            if f.len() >= 4 {
                let (ta, tb) = f[2];
                proof {
                    assert(f@[2] == (ta, tb));
                    assert(fs[2] == cs@.subrange(ta as int, tb as int));
                }
                if !is_virtual(content, &cs, ta, tb) {
                    let (d0, d1) = f[0];
                    let (m0, m1) = f[1];
                    let (o0, o1) = f[3];
                    proof {
                        assert(f@[0] == (d0, d1));
                        assert(f@[1] == (m0, m1));
                        assert(f@[3] == (o0, o1));
                    }
                    let e = FstabEntry {
                        device: range_string(content, &cs, d0, d1),
                        mountpoint: range_string(content, &cs, m0, m1),
                        fstype: range_string(content, &cs, ta, tb),
                        options: range_string(content, &cs, o0, o1),
                        dump: number_field(&cs, &f, 4, a, b),
                        pass: number_field(&cs, &f, 5, a, b),
                    };
                    let ghost prev = out@;
                    out.push(e);
                    proof {
                        assert(pred(line));
                        assert(entry_of_line(e, line));
                        assert forall|j: int| 0 <= j < out@.len() implies entry_of_line(#[trigger] out@[j], ls.take(i + 1).filter(pred)[j]) by {
                            if j < kept.len() {
                                assert(out@[j] == prev[j]);
                            }
                        }
                    }
                } else {
                    proof {
                        assert(!pred(line));
                    }
                }
            } else {
                proof {
                    assert(!pred(line));
                }
            }
        } else {
            proof {
                assert(!pred(line));
            }
        }
    }
    proof {
        assert(ls.take(lines@.len() as int) =~= ls);
    }
    out
}


/// The mount flags that options can set.
#[derive(Debug, Clone, Copy, PartialEq, Eq, Structural)]
pub struct MountOptions {
    pub rdonly: bool,
    pub nosuid: bool,
    pub nodev: bool,
    pub noexec: bool,
    pub noatime: bool,
    pub relatime: bool,
    pub synchronous: bool,
    pub dirsync: bool,
    pub mandlock: bool,
}

/// Some comma-separated option, trimmed, is `name`.
pub open spec fn has_option(opts: Seq<char>, name: Seq<char>) -> bool {
    exists|i: int| 0 <= i < split_on(opts, ',').len() && #[trigger] trim(split_on(opts, ',')[i]) == name
}

/// The flags that a comma-separated option list sets: "defaults" stands for
/// nosuid, nodev, noexec and relatime; unknown options are ignored.
pub open spec fn mount_options_of(opts: Seq<char>) -> MountOptions {
    let d = has_option(opts, "defaults"@);
    MountOptions {
        rdonly: has_option(opts, "ro"@),
        nosuid: d || has_option(opts, "nosuid"@),
        nodev: d || has_option(opts, "nodev"@),
        noexec: d || has_option(opts, "noexec"@),
        noatime: has_option(opts, "noatime"@),
        relatime: d || has_option(opts, "relatime"@),
        synchronous: has_option(opts, "sync"@),
        dirsync: has_option(opts, "dirsync"@),
        mandlock: has_option(opts, "mand"@),
    }
}

/// The option list's items, each with the white space around it taken off.
pub open spec fn option_items(opts: Seq<char>) -> Seq<Seq<char>> {
    split_on(opts, ',').map_values(|p: Seq<char>| trim(p))
}

/// Each mount flag is set exactly when the option list names it among its
/// comma-separated items (white space around an item aside), or, for nosuid,
/// nodev, noexec and relatime, names "defaults"; "ro" sets rdonly, "sync"
/// synchronous and "mand" mandlock.
pub proof fn mount_flags_follow_option_items(opts: Seq<char>)
    ensures
        mount_options_of(opts).rdonly == option_items(opts).contains("ro"@),
        mount_options_of(opts).nosuid == (option_items(opts).contains("nosuid"@) || option_items(
            opts,
        ).contains("defaults"@)),
        mount_options_of(opts).nodev == (option_items(opts).contains("nodev"@) || option_items(
            opts,
        ).contains("defaults"@)),
        mount_options_of(opts).noexec == (option_items(opts).contains("noexec"@) || option_items(
            opts,
        ).contains("defaults"@)),
        mount_options_of(opts).noatime == option_items(opts).contains("noatime"@),
        mount_options_of(opts).relatime == (option_items(opts).contains("relatime"@) || option_items(
            opts,
        ).contains("defaults"@)),
        mount_options_of(opts).synchronous == option_items(opts).contains("sync"@),
        mount_options_of(opts).dirsync == option_items(opts).contains("dirsync"@),
        mount_options_of(opts).mandlock == option_items(opts).contains("mand"@),
{
    let items = option_items(opts);
    let ps = split_on(opts, ',');
    assert forall|name: Seq<char>| items.contains(name) == has_option(opts, name) by {
        if items.contains(name) {
            let i = choose|i: int| 0 <= i < items.len() && items[i] == name;
            assert(trim(ps[i]) == name);
        }
        if has_option(opts, name) {
            let i = choose|i: int| 0 <= i < ps.len() && #[trigger] trim(ps[i]) == name;
            assert(items[i] == name);
        }
    }
}

/// Which of the first `k` options, trimmed, is `name`.
spec fn seen_option(ps: Seq<Seq<char>>, k: int, name: Seq<char>) -> bool {
    exists|i: int| 0 <= i < k && #[trigger] trim(ps[i]) == name
}

/// Whether some comma-separated option of `options`, trimmed, is `name`.
fn option_present(options: &str, cs: &Vec<char>, parts: &Vec<(usize, usize)>, name: &str) -> (r: bool)
    requires
        cs@ == options@,
        ranges_within(parts@, 0, cs@.len() as int),
        pieces(cs@, parts@) == split_on(options@, ','),
    ensures
        r == has_option(options@, name@),
{
    let ghost ps = pieces(cs@, parts@);
    for i in 0..parts.len()
        invariant
            cs@ == options@,
            ps == pieces(cs@, parts@),
            ps == split_on(options@, ','),
            ranges_within(parts@, 0, cs@.len() as int),
            !seen_option(ps, i as int, name@),
    {
        let (pa, pb) = parts[i];
        proof {
            assert(parts@[i as int] == (pa, pb));
            assert(ps[i as int] == cs@.subrange(pa as int, pb as int));
        }
        let (a, b) = trim_range(cs, pa, pb);
        if range_eq(options, cs, a, b, name) {
            proof {
                assert(trim(ps[i as int]) == name@);
            }
            return true;
        }
        proof {
            assert forall|j: int| 0 <= j < i + 1 implies #[trigger] trim(ps[j]) != name@ by {
                if j < i {
                    assert(!seen_option(ps, i as int, name@));
                }
            }
        }
    }
    false
}

pub fn parse_mount_options(options: &str) -> (r: MountOptions)
    ensures
        r == mount_options_of(options@),
        r.rdonly == option_items(options@).contains("ro"@),
        r.nosuid == (option_items(options@).contains("nosuid"@) || option_items(options@).contains(
            "defaults"@,
        )),
        r.nodev == (option_items(options@).contains("nodev"@) || option_items(options@).contains(
            "defaults"@,
        )),
        r.noexec == (option_items(options@).contains("noexec"@) || option_items(options@).contains(
            "defaults"@,
        )),
        r.noatime == option_items(options@).contains("noatime"@),
        r.relatime == (option_items(options@).contains("relatime"@) || option_items(
            options@,
        ).contains("defaults"@)),
        r.synchronous == option_items(options@).contains("sync"@),
        r.dirsync == option_items(options@).contains("dirsync"@),
        r.mandlock == option_items(options@).contains("mand"@),
{
    proof {
        mount_flags_follow_option_items(options@);
    }
    let cs = chars_of(options);
    let n = cs.len();
    let parts = split_ranges(&cs, 0, n, ',');
    proof {
        assert(cs@.subrange(0, n as int) =~= options@);
    }
    let d = option_present(options, &cs, &parts, "defaults");
    MountOptions {
        rdonly: option_present(options, &cs, &parts, "ro"),
        nosuid: d || option_present(options, &cs, &parts, "nosuid"),
        nodev: d || option_present(options, &cs, &parts, "nodev"),
        noexec: d || option_present(options, &cs, &parts, "noexec"),
        noatime: option_present(options, &cs, &parts, "noatime"),
        relatime: d || option_present(options, &cs, &parts, "relatime"),
        synchronous: option_present(options, &cs, &parts, "sync"),
        dirsync: option_present(options, &cs, &parts, "dirsync"),
        mandlock: option_present(options, &cs, &parts, "mand"),
    }
}

/// One mount to perform.
#[derive(Debug)]
pub struct MountRequest {
    /// What to mount; none for a filesystem without a device.
    pub source: Option<String>,
    /// Where to mount it.
    pub target: String,
    pub fstype: String,
    pub options: MountOptions,
    /// Filesystem-specific data.
    pub data: Option<String>,
}

/// The mount that an fstab entry asks for: device "none" means no source.
pub open spec fn entry_mount(e: FstabEntry, m: MountRequest) -> bool {
    &&& if e.device@ == "none"@ {
        m.source is None
    } else {
        m.source matches Some(s) && s@ == e.device@
    }
    &&& m.target@ == e.mountpoint@
    &&& m.fstype@ == e.fstype@
    &&& m.options == mount_options_of(e.options@)
    &&& m.data is None
}

/// The mount that an fstab line asks for.
pub open spec fn mount_of_line(m: MountRequest, line: Seq<char>) -> bool {
    let f = words(trim(line));
    &&& if f[0] == "none"@ {
        m.source is None
    } else {
        m.source matches Some(s) && s@ == f[0]
    }
    &&& m.target@ == f[1]
    &&& m.fstype@ == f[2]
    &&& m.options == mount_options_of(f[3])
    &&& m.data is None
}

/// The mounts that the text of /etc/fstab asks for, in order.
pub fn mount_fstab(content: &str) -> (r: Vec<MountRequest>)
    ensures
        r@.len() == fstab_lines(content@).len(),
        forall|i: int| 0 <= i < r@.len() ==> mount_of_line(#[trigger] r@[i], fstab_lines(content@)[i]),
{
    let entries = parse_fstab(content);
    let mut out: Vec<MountRequest> = Vec::new();
    for i in 0..entries.len()
        invariant
            entries@.len() == fstab_lines(content@).len(),
            forall|j: int| 0 <= j < entries@.len() ==> entry_of_line(#[trigger] entries@[j], fstab_lines(content@)[j]),
            out@.len() == i,
            forall|j: int| 0 <= j < i ==> entry_mount(entries@[j], #[trigger] out@[j]),
    {
        let e = &entries[i];
        let source = if crate::text::str_eq(e.device.as_str(), "none") {
            None
        } else {
            Some(e.device.clone())
        };
        let m = MountRequest {
            source,
            target: e.mountpoint.clone(),
            fstype: e.fstype.clone(),
            options: parse_mount_options(e.options.as_str()),
            data: None,
        };
        proof {
            assert(entry_mount(*e, m));
        }
        out.push(m);
    }
    proof {
        assert forall|i: int| 0 <= i < out@.len() implies mount_of_line(#[trigger] out@[i], fstab_lines(content@)[i]) by {
            assert(entry_of_line(entries@[i], fstab_lines(content@)[i]));
            assert(entry_mount(entries@[i], out@[i]));
        }
    }
    out
}


/// A mount request as plain values: source, target, type, flags and data.
pub open spec fn mount_view(m: MountRequest) -> (Option<Seq<char>>, Seq<char>, Seq<char>, MountOptions, Option<Seq<char>>) {
    (
        match m.source {
            Some(s) => Some(s@),
            None => None,
        },
        m.target@,
        m.fstype@,
        m.options,
        match m.data {
            Some(d) => Some(d@),
            None => None,
        },
    )
}

/// Mount flags with only nosuid, nodev and noexec possibly set.
pub open spec fn restricted(nosuid: bool, nodev: bool, noexec: bool) -> MountOptions {
    MountOptions {
        rdonly: false,
        nosuid,
        nodev,
        noexec,
        noatime: false,
        relatime: false,
        synchronous: false,
        dirsync: false,
        mandlock: false,
    }
}

/// The virtual filesystems that early boot mounts, in order.
pub open spec fn virtual_mount_table() -> Seq<(Option<Seq<char>>, Seq<char>, Seq<char>, MountOptions, Option<Seq<char>>)> {
    seq![
        (Some("proc"@), "/proc"@, "proc"@, restricted(true, true, true), None),
        (Some("sysfs"@), "/sys"@, "sysfs"@, restricted(true, true, true), None),
        (Some("devtmpfs"@), "/dev"@, "devtmpfs"@, restricted(true, false, false), Some("mode=0755"@)),
        (Some("tmpfs"@), "/run"@, "tmpfs"@, restricted(true, true, false), Some("mode=0755,size=10%"@)),
        (Some("devpts"@), "/dev/pts"@, "devpts"@, restricted(true, false, true), Some("gid=5,mode=0620"@)),
    ]
}

fn restricted_flags(nosuid: bool, nodev: bool, noexec: bool) -> (r: MountOptions)
    ensures
        r == restricted(nosuid, nodev, noexec),
{
    MountOptions {
        rdonly: false,
        nosuid,
        nodev,
        noexec,
        noatime: false,
        relatime: false,
        synchronous: false,
        dirsync: false,
        mandlock: false,
    }
}

fn virtual_mount(source: &str, target: &str, fstype: &str, options: MountOptions, data: Option<&str>) -> (r: MountRequest)
    ensures
        mount_view(r) == (Some(source@), target@, fstype@, options, match data {
            Some(d) => Some(d@),
            None => None::<Seq<char>>,
        }),
{
    MountRequest {
        source: Some(String::from_str(source)),
        target: String::from_str(target),
        fstype: String::from_str(fstype),
        options,
        data: match data {
            Some(d) => Some(String::from_str(d)),
            None => None,
        },
    }
}

/// The mounts of the essential virtual filesystems, made once during early
/// boot before any service starts: /proc, /sys, /dev, /run and /dev/pts.
pub fn virtual_mounts() -> (r: Vec<MountRequest>)
    ensures
        r@.map_values(|m: MountRequest| mount_view(m)) == virtual_mount_table(),
{
    let mut v: Vec<MountRequest> = Vec::new();
    v.push(virtual_mount("proc", "/proc", "proc", restricted_flags(true, true, true), None));
    v.push(virtual_mount("sysfs", "/sys", "sysfs", restricted_flags(true, true, true), None));
    v.push(virtual_mount("devtmpfs", "/dev", "devtmpfs", restricted_flags(true, false, false), Some("mode=0755")));
    v.push(virtual_mount("tmpfs", "/run", "tmpfs", restricted_flags(true, true, false), Some("mode=0755,size=10%")));
    v.push(virtual_mount("devpts", "/dev/pts", "devpts", restricted_flags(true, false, true), Some("gid=5,mode=0620")));
    proof {
        assert(v@.map_values(|m: MountRequest| mount_view(m)) =~= virtual_mount_table());
    }
    v
}

/// The directories that hold the supervisor's runtime state.
pub open spec fn run_dir_table() -> Seq<Seq<char>> {
    seq!["/run/rinit"@, "/run/rinit/lock"@, "/run/rinit/units"@]
}

/// The runtime directories to create during early boot, parents first.
pub fn run_dirs() -> (r: Vec<String>)
    ensures
        r.deep_view() == run_dir_table(),
{
    let mut v: Vec<String> = Vec::new();
    v.push(String::from_str("/run/rinit"));
    v.push(String::from_str("/run/rinit/lock"));
    v.push(String::from_str("/run/rinit/units"));
    proof {
        assert(v.deep_view() =~= run_dir_table());
    }
    v
}

/// Early boot mounts every virtual filesystem itself, so /etc/fstab never
/// mounts one of them again: each filesystem type of the early mounts is
/// one that fstab parsing leaves out.
pub proof fn virtual_mounts_not_in_fstab(i: int)
    requires
        0 <= i < virtual_mount_table().len(),
    ensures
        virtual_fstype(virtual_mount_table()[i].2),
{
}

/// The host name that the text of /etc/hostname gives (`None` when it cannot
/// be read): the text without surrounding white space, or "localhost".
pub fn hostname_of(file: Option<&str>) -> (r: String)
    ensures
        r@ == match file {
            Some(t) => trim(t@),
            None => "localhost"@,
        },
{
    match file {
        Some(t) => {
            let cs = chars_of(t);
            let (a, b) = trim_range(&cs, 0, cs.len());
            proof {
                assert(cs@.subrange(0, cs@.len() as int) =~= t@);
            }
            range_string(t, &cs, a, b)
        },
        None => {
            proof {
                reveal_strlit("localhost");
            }
            String::from_str("localhost")
        },
    }
}

} // verus!
