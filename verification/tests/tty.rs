use rinit::tty::{baud_to_speed, tty_device_path, BaudRate};

#[test]
fn terminal_device_paths() {
    assert_eq!(tty_device_path("ttyS0"), "/dev/ttyS0");
    assert_eq!(tty_device_path("/dev/console"), "/dev/console");
}

#[test]
fn supported_baud_rates() {
    assert_eq!(baud_to_speed(0), BaudRate::B0);
    assert_eq!(baud_to_speed(9600), BaudRate::B9600);
    assert_eq!(baud_to_speed(115200), BaudRate::B115200);
    assert_eq!(baud_to_speed(4000000), BaudRate::B4000000);
}

#[test]
fn unsupported_baud_rate_falls_back_to_115200() {
    assert_eq!(baud_to_speed(12345), BaudRate::B115200);
    assert_eq!(baud_to_speed(u32::MAX), BaudRate::B115200);
}
