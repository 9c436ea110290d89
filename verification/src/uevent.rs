//! Kernel device events: the text of a netlink uevent and the device node
//! that an "add" event asks for.

use vstd::prelude::*;
use vstd::string::*;
use vstd::utf8::*;
use crate::text::{
    chars_of, parse_unsigned, parse_unsigned_in, range_eq, range_string, split_on, split_once,
    split_once_at, split_ranges, pieces, ranges_within,
};

verus! {

broadcast use vstd::utf8::decode_utf8_encode_utf8, vstd::utf8::encode_utf8_decode_utf8;

/// Parsed kernel uevent.
#[derive(Debug, Clone)]
pub struct Uevent {
    pub action: String,
    pub devpath: String,
    pub subsystem: String,
    pub devname: Option<String>,
    pub devtype: Option<String>,
    pub major: Option<u32>,
    pub minor: Option<u32>,
    pub seqnum: u64,
}

#[derive(Debug, Clone, Copy, PartialEq, Eq, Structural)]
pub enum UeventError {
    /// The message is not UTF-8.
    InvalidUtf8,
}

/// `std::str::from_utf8`: the text that a buffer holds, when it is valid
/// UTF-8. The contract claims what the std documentation says: it succeeds
/// exactly on valid UTF-8, and then the text's bytes are the buffer.
#[verifier::external_body]
fn utf8_text(buf: &[u8]) -> (r: Option<&str>)
    ensures
        r is Some <==> valid_utf8(buf@),
        r matches Some(s) ==> s.spec_bytes() == buf@,
{
    std::str::from_utf8(buf).ok()
}

/// `s` without its trailing NUL characters.
pub open spec fn trim_nuls(s: Seq<char>) -> Seq<char>
    decreases s.len(),
{
    if s.len() > 0 && s.last() == '\0' {
        trim_nuls(s.drop_last())
    } else {
        s
    }
}

/// The value of the last `key=value` pair for `key`.
pub open spec fn pair_value(pairs: Seq<Seq<char>>, key: Seq<char>) -> Option<Seq<char>>
    decreases pairs.len(),
{
    if pairs.len() == 0 {
        None
    } else {
        match split_once(pairs.last(), '=') {
            Some((k, v)) => if k == key {
                Some(v)
            } else {
                pair_value(pairs.drop_last(), key)
            },
            None => pair_value(pairs.drop_last(), key),
        }
    }
}

/// The `key=value` pairs of a uevent's text: separated by NUL, with the
/// trailing NULs dropped.
pub open spec fn uevent_pairs(text: Seq<char>) -> Seq<Seq<char>> {
    split_on(trim_nuls(text), '\0')
}

pub open spec fn text_or_empty(o: Option<Seq<char>>) -> Seq<char> {
    match o {
        Some(v) => v,
        None => Seq::empty(),
    }
}

/// A number field: present and readable, or absent.
pub open spec fn number_field(o: Option<Seq<char>>, max: nat) -> Option<nat> {
    match o {
        Some(v) => parse_unsigned(v, max),
        None => None,
    }
}

pub open spec fn opt_string_view(o: Option<String>) -> Option<Seq<char>> {
    match o {
        Some(s) => Some(s@),
        None => None,
    }
}

/// The uevent that a text describes: each field is the value of the last
/// pair with its key; a number that is missing or unreadable is absent (and
/// the sequence number 0).
pub open spec fn uevent_matches(u: Uevent, text: Seq<char>) -> bool {
    let p = uevent_pairs(text);
    &&& u.action@ == text_or_empty(pair_value(p, "ACTION"@))
    &&& u.devpath@ == text_or_empty(pair_value(p, "DEVPATH"@))
    &&& u.subsystem@ == text_or_empty(pair_value(p, "SUBSYSTEM"@))
    &&& opt_string_view(u.devname) == pair_value(p, "DEVNAME"@)
    &&& opt_string_view(u.devtype) == pair_value(p, "DEVTYPE"@)
    &&& u.major == match number_field(pair_value(p, "MAJOR"@), 4294967295) {
        Some(v) => Some(v as u32),
        None => None::<u32>,
    }
    &&& u.minor == match number_field(pair_value(p, "MINOR"@), 4294967295) {
        Some(v) => Some(v as u32),
        None => None::<u32>,
    }
    &&& u.seqnum == match number_field(pair_value(p, "SEQNUM"@), 18446744073709551615) {
        Some(v) => v as u64,
        None => 0u64,
    }
}

spec fn span_view(cs: Seq<char>, sp: Option<(usize, usize)>) -> Option<Seq<char>> {
    match sp {
        Some((a, b)) => Some(cs.subrange(a as int, b as int)),
        None => None,
    }
}

fn span_string(s: &str, cs: &Vec<char>, sp: Option<(usize, usize)>) -> (r: Option<String>)
    requires
        cs@ == s@,
        sp matches Some((a, b)) ==> a <= b <= cs@.len(),
    ensures
        opt_string_view(r) == span_view(cs@, sp),
{
    match sp {
        Some((a, b)) => Some(range_string(s, cs, a, b)),
        None => None,
    }
}

fn span_number(cs: &Vec<char>, sp: Option<(usize, usize)>, max: u64) -> (r: Option<u64>)
    requires
        sp matches Some((a, b)) ==> a <= b <= cs@.len(),
        max >= 9,
    ensures
        match r {
            Some(v) => number_field(span_view(cs@, sp), max as nat) == Some(v as nat),
            None => number_field(span_view(cs@, sp), max as nat) is None,
        },
{
    match sp {
        Some((a, b)) => parse_unsigned_in(cs, a, b, max),
        None => None,
    }
}

/// The value of the last pair for `key` among the pieces `parts` of `cs`.
fn find_pair(s: &str, cs: &Vec<char>, parts: &Vec<(usize, usize)>, end: usize, key: &str) -> (r: Option<(usize, usize)>)
    requires
        cs@ == s@,
        end <= cs@.len(),
        ranges_within(parts@, 0, end as int),
    ensures
        span_view(cs@, r) == pair_value(pieces(cs@, parts@), key@),
        r matches Some((a, b)) ==> a <= b <= cs@.len(),
{
    let ghost ps = pieces(cs@, parts@);
    let mut i = parts.len();
    proof {
        assert(ps.take(i as int) =~= ps);
    }
    while i > 0
        invariant
            i <= parts@.len(),
            ps == pieces(cs@, parts@),
            ranges_within(parts@, 0, end as int),
            end <= cs@.len(),
            cs@ == s@,
            pair_value(ps, key@) == pair_value(ps.take(i as int), key@),
        decreases i,
    {
        let (a, b) = parts[i - 1];
        proof {
            assert(parts@[i - 1] == (a, b));
            assert(ps[i - 1] == cs@.subrange(a as int, b as int));
            assert(ps.take(i as int).drop_last() =~= ps.take(i - 1));
            assert(ps.take(i as int).last() == ps[i - 1]);
        }
        if let Some(k) = split_once_at(cs, a, b, '=') {
            if range_eq(s, cs, a, k, key) {
                return Some((k + 1, b));
            }
        }
        i = i - 1;
    }
    None
}

/// Parse a raw uevent buffer: NUL-separated `key=value` pairs.
pub fn parse_uevent(buf: &[u8]) -> (r: Result<Uevent, UeventError>)
    ensures
        r is Ok <==> valid_utf8(buf@),
        r matches Err(e) ==> e == UeventError::InvalidUtf8,
        r matches Ok(u) ==> uevent_matches(u, decode_utf8(buf@)),
{
    let text = match utf8_text(buf) {
        Some(t) => t,
        None => {
            return Err(UeventError::InvalidUtf8);
        },
    };
    proof {
        assert(text@ == decode_utf8(buf@)) by {
            assert(decode_utf8(encode_utf8(text@)) == text@);
        }
    }
    let cs = chars_of(text);
    let mut end = cs.len();
    proof {
        assert(cs@.subrange(0, cs@.len() as int) =~= cs@);
    }
    while end > 0 && cs[end - 1] == '\0'
        invariant
            end <= cs@.len(),
            trim_nuls(cs@) == trim_nuls(cs@.subrange(0, end as int)),
        decreases end,
    {
        proof {
            assert(cs@.subrange(0, end as int).drop_last() =~= cs@.subrange(0, end - 1));
        }
        end = end - 1;
    }
    proof {
        assert(trim_nuls(cs@.subrange(0, end as int)) == cs@.subrange(0, end as int));
    }
    let parts = split_ranges(&cs, 0, end, '\0');
    proof {
        assert(cs@ == text@);
        assert(pieces(cs@, parts@) == uevent_pairs(text@));
    }
    let action = find_pair(text, &cs, &parts, end, "ACTION");
    let devpath = find_pair(text, &cs, &parts, end, "DEVPATH");
    let subsystem = find_pair(text, &cs, &parts, end, "SUBSYSTEM");
    let devname = find_pair(text, &cs, &parts, end, "DEVNAME");
    let devtype = find_pair(text, &cs, &parts, end, "DEVTYPE");
    let major = find_pair(text, &cs, &parts, end, "MAJOR");
    let minor = find_pair(text, &cs, &parts, end, "MINOR");
    let seqnum = find_pair(text, &cs, &parts, end, "SEQNUM");
    let action_s = span_string(text, &cs, action);
    let devpath_s = span_string(text, &cs, devpath);
    let subsystem_s = span_string(text, &cs, subsystem);
    let major_n = span_number(&cs, major, 4294967295);
    let minor_n = span_number(&cs, minor, 4294967295);
    let seq_n = span_number(&cs, seqnum, 18446744073709551615);
    Ok(Uevent {
        action: match action_s {
            Some(x) => x,
            None => String::new(),
        },
        devpath: match devpath_s {
            Some(x) => x,
            None => String::new(),
        },
        subsystem: match subsystem_s {
            Some(x) => x,
            None => String::new(),
        },
        devname: span_string(text, &cs, devname),
        devtype: span_string(text, &cs, devtype),
        major: match major_n {
            Some(x) => Some(x as u32),
            None => None,
        },
        minor: match minor_n {
            Some(x) => Some(x as u32),
            None => None,
        },
        seqnum: match seq_n {
            Some(x) => x,
            None => 0,
        },
    })
}


/// The kind of a device node.
#[derive(Debug, Clone, Copy, PartialEq, Eq, Structural)]
pub enum DeviceKind {
    Char,
    Block,
}

/// A device node to create under /dev.
#[derive(Debug)]
pub struct DeviceNode {
    /// Where the node goes: `/dev/` and the device name.
    pub path: String,
    pub kind: DeviceKind,
    /// The device number.
    pub dev: u64,
}

/// The device number that Linux encodes from a major and a minor number:
/// the low 8 bits of the minor, then the low 12 bits of the major, then the
/// rest of the minor, then the rest of the major.
pub open spec fn linux_dev(major: u32, minor: u32) -> u64 {
    let ma = major as u64;
    let mi = minor as u64;
    ((ma & 0x00000fff) << 8u64) | ((ma & 0xfffff000) << 32u64) | (mi & 0x000000ff) | ((mi & 0xffffff00) << 12u64)
}

/// The major number that a device number holds, as glibc's `gnu_dev_major`
/// reads it.
pub open spec fn dev_major(dev: u64) -> u32 {
    (((dev >> 8u64) & 0x00000fffu64) | ((dev >> 32u64) & 0xfffff000u64)) as u32
}

/// The minor number that a device number holds, as glibc's `gnu_dev_minor`
/// reads it.
pub open spec fn dev_minor(dev: u64) -> u32 {
    ((dev & 0x000000ffu64) | ((dev >> 12u64) & 0xffffff00u64)) as u32
}

/// A device number gives back the major and minor numbers it was made from,
/// so two different pairs never share a device number.
pub proof fn device_number_decodes(major: u32, minor: u32)
    ensures
        dev_major(linux_dev(major, minor)) == major,
        dev_minor(linux_dev(major, minor)) == minor,
        forall|ma: u32, mi: u32| #[trigger] linux_dev(ma, mi) == linux_dev(major, minor) ==> ma == major && mi == minor,
{
    assert forall|ma: u32, mi: u32|
        dev_major(#[trigger] linux_dev(ma, mi)) == ma && dev_minor(linux_dev(ma, mi)) == mi by {
        let a = ma as u64;
        let b = mi as u64;
        let d = linux_dev(ma, mi);
        assert(d == ((a & 0x00000fff) << 8u64) | ((a & 0xfffff000) << 32u64) | (b & 0x000000ff) | ((b & 0xffffff00) << 12u64));
        assert(a <= 0xffffffffu64);
        assert(b <= 0xffffffffu64);
        assert((((d >> 8u64) & 0x00000fffu64) | ((d >> 32u64) & 0xfffff000u64)) == a
            && ((d & 0x000000ffu64) | ((d >> 12u64) & 0xffffff00u64)) == b) by (bit_vector)
            requires
                a <= 0xffffffffu64,
                b <= 0xffffffffu64,
                d == ((a & 0x00000fff) << 8u64) | ((a & 0xfffff000) << 32u64) | (b & 0x000000ff) | ((b & 0xffffff00) << 12u64),
        ;
    }
}

/// The device number of a major and a minor number, encoded as Linux does.
fn makedev(major: u32, minor: u32) -> (r: u64)
    ensures
        r == linux_dev(major, minor),
{
    let ma = major as u64;
    let mi = minor as u64;
    ((ma & 0x00000fff) << 8u64) | ((ma & 0xfffff000) << 32u64) | (mi & 0x000000ff) | ((mi & 0xffffff00) << 12u64)
}

/// The node for a device: a block device for type 'b', a character device
/// otherwise.
pub fn device_node(name: &str, devtype: char, major: u32, minor: u32) -> (r: DeviceNode)
    ensures
        r.path@ == "/dev/"@ + name@,
        r.kind == if devtype == 'b' {
            DeviceKind::Block
        } else {
            DeviceKind::Char
        },
        r.dev == linux_dev(major, minor),
        dev_major(r.dev) == major,
        dev_minor(r.dev) == minor,
{
    proof {
        device_number_decodes(major, minor);
    }
    let mut path = String::from_str("/dev/");
    path.append(name);
    let kind = if devtype == 'b' {
        DeviceKind::Block
    } else {
        DeviceKind::Char
    };
    DeviceNode { path, kind, dev: makedev(major, minor) }
}

/// The device type character of a uevent: the first character of its
/// DEVTYPE, or 'c' (a character device) when it is missing or empty.
pub open spec fn devtype_char(t: Option<Seq<char>>) -> char {
    match t {
        Some(t) => if t.len() > 0 {
            t[0]
        } else {
            'c'
        },
        None => 'c',
    }
}

/// The node that a uevent asks for: an "add" event that names the device
/// and both of its numbers.
pub fn device_node_for(u: &Uevent) -> (r: Option<DeviceNode>)
    ensures
        r is Some <==> (u.action@ == "add"@ && u.devname is Some && u.major is Some && u.minor is Some),
        r matches Some(n) ==> {
            &&& n.path@ == "/dev/"@ + u.devname.unwrap()@
            &&& n.kind == if devtype_char(opt_string_view(u.devtype)) == 'b' {
                DeviceKind::Block
            } else {
                DeviceKind::Char
            }
            &&& n.dev == linux_dev(u.major.unwrap(), u.minor.unwrap())
        },
{
    if !crate::text::str_eq(u.action.as_str(), "add") {
        return None;
    }
    match (&u.devname, u.major, u.minor) {
        (Some(name), Some(major), Some(minor)) => {
            let dt = match &u.devtype {
                Some(t) => if t.as_str().unicode_len() > 0 {
                    t.as_str().get_char(0)
                } else {
                    'c'
                },
                None => 'c',
            };
            Some(device_node(name.as_str(), dt, major, minor))
        },
        _ => None,
    }
}

} // verus!
