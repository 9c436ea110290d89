//! Terminal sessions for getty-like services: which device a service's
//! terminal names, and the line speed it runs at.

use vstd::prelude::*;
use vstd::string::*;
use crate::text::chars_of;

verus! {

/// The device file of a terminal: an absolute path as given, otherwise a
/// name under `/dev`.
pub open spec fn tty_path(tty: Seq<char>) -> Seq<char> {
    if tty.len() > 0 && tty[0] == '/' {
        tty
    } else {
        "/dev/"@ + tty
    }
}

/// The device file to open for the terminal `tty`.
pub fn tty_device_path(tty: &str) -> (r: String)
    ensures
        r@ == tty_path(tty@),
{
    let cs = chars_of(tty);
    if cs.len() > 0 && cs[0] == '/' {
        return String::from_str(tty);
    }
    let mut s = String::from_str("/dev/");
    s.append(tty);
    proof {
        reveal_strlit("/dev/");
        assert(s@ =~= "/dev/"@ + tty@);
    }
    s
}

/// The line speeds a terminal can be set to.
#[derive(Debug, Clone, Copy, PartialEq, Eq, Structural)]
pub enum BaudRate {
    B0,
    B50,
    B75,
    B110,
    B134,
    B150,
    B200,
    B300,
    B600,
    B1200,
    B1800,
    B2400,
    B4800,
    B9600,
    B19200,
    B38400,
    B57600,
    B115200,
    B230400,
    B460800,
    B500000,
    B576000,
    B921600,
    B1000000,
    B1152000,
    B1500000,
    B2000000,
    B2500000,
    B3000000,
    B3500000,
    B4000000,
}

/// The number of bits per second that a line speed stands for.
pub open spec fn bits_per_second(speed: BaudRate) -> u32 {
    match speed {
        BaudRate::B0 => 0,
        BaudRate::B50 => 50,
        BaudRate::B75 => 75,
        BaudRate::B110 => 110,
        BaudRate::B134 => 134,
        BaudRate::B150 => 150,
        BaudRate::B200 => 200,
        BaudRate::B300 => 300,
        BaudRate::B600 => 600,
        BaudRate::B1200 => 1200,
        BaudRate::B1800 => 1800,
        BaudRate::B2400 => 2400,
        BaudRate::B4800 => 4800,
        BaudRate::B9600 => 9600,
        BaudRate::B19200 => 19200,
        BaudRate::B38400 => 38400,
        BaudRate::B57600 => 57600,
        BaudRate::B115200 => 115200,
        BaudRate::B230400 => 230400,
        BaudRate::B460800 => 460800,
        BaudRate::B500000 => 500000,
        BaudRate::B576000 => 576000,
        BaudRate::B921600 => 921600,
        BaudRate::B1000000 => 1000000,
        BaudRate::B1152000 => 1152000,
        BaudRate::B1500000 => 1500000,
        BaudRate::B2000000 => 2000000,
        BaudRate::B2500000 => 2500000,
        BaudRate::B3000000 => 3000000,
        BaudRate::B3500000 => 3500000,
        BaudRate::B4000000 => 4000000,
    }
}

/// Every line speed is chosen for its own rate, and a requested rate gets
/// either the speed of exactly that rate or, when no speed has that rate,
/// 115200.
pub proof fn baud_choice_matches_rate(speed: BaudRate, baud: u32)
    ensures
        baud_rate_of(bits_per_second(speed)) == speed,
        bits_per_second(baud_rate_of(baud)) == baud || baud_rate_of(baud) == BaudRate::B115200,
        (forall|s: BaudRate| bits_per_second(s) != baud) ==> baud_rate_of(baud) == BaudRate::B115200,
{
    match speed {
        _ => {}
    }
    if forall|s: BaudRate| bits_per_second(s) != baud {
        assert(bits_per_second(baud_rate_of(baud)) != baud);
    }
}

/// The line speed for a requested baud rate: the rate itself when the
/// terminal supports it, 115200 otherwise.
pub open spec fn baud_rate_of(baud: u32) -> BaudRate {
    match baud {
        0 => BaudRate::B0,
        50 => BaudRate::B50,
        75 => BaudRate::B75,
        110 => BaudRate::B110,
        134 => BaudRate::B134,
        150 => BaudRate::B150,
        200 => BaudRate::B200,
        300 => BaudRate::B300,
        600 => BaudRate::B600,
        1200 => BaudRate::B1200,
        1800 => BaudRate::B1800,
        2400 => BaudRate::B2400,
        4800 => BaudRate::B4800,
        9600 => BaudRate::B9600,
        19200 => BaudRate::B19200,
        38400 => BaudRate::B38400,
        57600 => BaudRate::B57600,
        115200 => BaudRate::B115200,
        230400 => BaudRate::B230400,
        460800 => BaudRate::B460800,
        500000 => BaudRate::B500000,
        576000 => BaudRate::B576000,
        921600 => BaudRate::B921600,
        1000000 => BaudRate::B1000000,
        1152000 => BaudRate::B1152000,
        1500000 => BaudRate::B1500000,
        2000000 => BaudRate::B2000000,
        2500000 => BaudRate::B2500000,
        3000000 => BaudRate::B3000000,
        3500000 => BaudRate::B3500000,
        4000000 => BaudRate::B4000000,
        _ => BaudRate::B115200,
    }
}

pub fn baud_to_speed(baud: u32) -> (r: BaudRate)
    ensures
        r == baud_rate_of(baud),
        bits_per_second(r) == baud || r == BaudRate::B115200,
        forall|s: BaudRate| #[trigger] bits_per_second(s) == baud ==> r == s,
{
    proof {
        assert forall|s: BaudRate| #[trigger] bits_per_second(s) == baud implies baud_rate_of(baud) == s by {
            baud_choice_matches_rate(s, baud);
        }
        baud_choice_matches_rate(BaudRate::B0, baud);
    }
    match baud {
        0 => BaudRate::B0,
        50 => BaudRate::B50,
        75 => BaudRate::B75,
        110 => BaudRate::B110,
        134 => BaudRate::B134,
        150 => BaudRate::B150,
        200 => BaudRate::B200,
        300 => BaudRate::B300,
        600 => BaudRate::B600,
        1200 => BaudRate::B1200,
        1800 => BaudRate::B1800,
        2400 => BaudRate::B2400,
        4800 => BaudRate::B4800,
        9600 => BaudRate::B9600,
        19200 => BaudRate::B19200,
        38400 => BaudRate::B38400,
        57600 => BaudRate::B57600,
        115200 => BaudRate::B115200,
        230400 => BaudRate::B230400,
        460800 => BaudRate::B460800,
        500000 => BaudRate::B500000,
        576000 => BaudRate::B576000,
        921600 => BaudRate::B921600,
        1000000 => BaudRate::B1000000,
        1152000 => BaudRate::B1152000,
        1500000 => BaudRate::B1500000,
        2000000 => BaudRate::B2000000,
        2500000 => BaudRate::B2500000,
        3000000 => BaudRate::B3000000,
        3500000 => BaudRate::B3500000,
        4000000 => BaudRate::B4000000,
        _ => BaudRate::B115200,
    }
}

} // verus!
