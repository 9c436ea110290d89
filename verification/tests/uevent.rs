use rinit::uevent::{device_node_for, parse_uevent, DeviceKind, UeventError};

const TTY_ADD: &[u8] =
    b"ACTION=add\0DEVPATH=/devices/platform/serial\0SUBSYSTEM=tty\0DEVNAME=ttyAMA0\0MAJOR=204\0MINOR=64\0SEQNUM=42\0\0";

#[test]
fn parse_full_event() {
    let u = parse_uevent(TTY_ADD).unwrap();
    assert_eq!(u.action, "add");
    assert_eq!(u.devpath, "/devices/platform/serial");
    assert_eq!(u.subsystem, "tty");
    assert_eq!(u.devname.as_deref(), Some("ttyAMA0"));
    assert_eq!(u.devtype, None);
    assert_eq!(u.major, Some(204));
    assert_eq!(u.minor, Some(64));
    assert_eq!(u.seqnum, 42);
}

#[test]
fn parse_keeps_the_last_value_and_skips_bad_numbers() {
    let u = parse_uevent(b"ACTION=add\0ACTION=remove\0MAJOR=x\0MINOR=+5\0SEQNUM=-1\0junk\0X=a=b").unwrap();
    assert_eq!(u.action, "remove");
    assert_eq!(u.devpath, "");
    assert_eq!(u.major, None);
    assert_eq!(u.minor, Some(5));
    assert_eq!(u.seqnum, 0);
}

#[test]
fn parse_refuses_invalid_utf8() {
    assert_eq!(parse_uevent(b"ACTION=\xff\0").err(), Some(UeventError::InvalidUtf8));
}

#[test]
fn add_event_gives_a_character_node() {
    let tty = device_node_for(&parse_uevent(TTY_ADD).unwrap()).unwrap();
    assert_eq!(tty.path, "/dev/ttyAMA0");
    assert_eq!(tty.kind, DeviceKind::Char);
    assert_eq!(tty.dev, 52288);
    let u = parse_uevent(b"ACTION=add\0DEVNAME=ttyAMA0\0DEVTYPE=char\0MAJOR=204\0MINOR=64\0").unwrap();
    let n = device_node_for(&u).unwrap();
    assert_eq!(n.path, "/dev/ttyAMA0");
    assert_eq!(n.kind, DeviceKind::Char);
    assert_eq!(n.dev, 52288);
}

#[test]
fn block_device_number_uses_the_split_encoding() {
    let u = parse_uevent(b"ACTION=add\0DEVNAME=sda\0DEVTYPE=block\0MAJOR=4660\0MINOR=354185\0").unwrap();
    let n = device_node_for(&u).unwrap();
    assert_eq!(n.path, "/dev/sda");
    assert_eq!(n.kind, DeviceKind::Block);
    assert_eq!(n.dev, 17593636369545);
}

#[test]
fn only_complete_add_events_make_nodes() {
    let removed = parse_uevent(b"ACTION=remove\0DEVNAME=sda\0DEVTYPE=disk\0MAJOR=8\0MINOR=0\0").unwrap();
    assert!(device_node_for(&removed).is_none());
    let no_minor = parse_uevent(b"ACTION=add\0DEVNAME=sda\0MAJOR=8\0").unwrap();
    assert!(device_node_for(&no_minor).is_none());
    let no_name = parse_uevent(b"ACTION=add\0MAJOR=8\0MINOR=0\0").unwrap();
    assert!(device_node_for(&no_name).is_none());
    let empty_type = parse_uevent(b"ACTION=add\0DEVNAME=null\0DEVTYPE=\0MAJOR=1\0MINOR=3\0").unwrap();
    assert_eq!(device_node_for(&empty_type).unwrap().kind, DeviceKind::Char);
}
