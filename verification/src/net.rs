//! Network configuration logic: DHCP packets (built and parsed), the steps
//! of the DHCP exchange, and the text forms of IPv4 addresses.

use vstd::prelude::*;
use vstd::string::*;
use crate::text::{
    chars_of, decimal, decimal_string, find_char, is_digit, lemma_decimal_digits, lemma_split_on_join,
    lemma_split_on_whole, parse_hex, parse_hex_in, parse_unsigned, parse_unsigned_in, pieces, ranges_within,
    split_on, split_ranges, trim, trim_range,
};

verus! {

/// DHCP lease information returned by a successful negotiation.
#[derive(Debug, Clone)]
pub struct DhcpLease {
    pub ip: u32,
    pub netmask: u32,
    pub gateway: Option<u32>,
    pub dns: Vec<u32>,
}

pub const DHCP_OPT_DISCOVER: u8 = 1;
pub const DHCP_OPT_REQUEST: u8 = 3;
pub const DHCP_OPT_SUBNET: u8 = 1;
pub const DHCP_OPT_ROUTER: u8 = 3;
pub const DHCP_OPT_DNS: u8 = 6;
pub const DHCP_OPT_MSG_TYPE: u8 = 53;
pub const DHCP_OPT_SERVER_ID: u8 = 54;
pub const DHCP_OPT_REQ_LIST: u8 = 55;
pub const DHCP_OPT_END: u8 = 255;

/// The number that four bytes give in network (big-endian) order.
pub open spec fn be_u32(b: Seq<u8>) -> int {
    b[0] * 16777216 + b[1] * 65536 + b[2] * 256 + b[3]
}

/// The four bytes of `x` in network order.
pub open spec fn be_bytes(x: u32) -> Seq<u8> {
    seq![(x / 16777216) as u8, ((x / 65536) % 256) as u8, ((x / 256) % 256) as u8, (x % 256) as u8]
}

fn u32_from_be(b0: u8, b1: u8, b2: u8, b3: u8) -> (r: u32)
    ensures
        r as int == be_u32(seq![b0, b1, b2, b3]),
{
    (b0 as u32) * 16777216 + (b1 as u32) * 65536 + (b2 as u32) * 256 + (b3 as u32)
}

/// What the options of a DHCP reply say.
pub struct DhcpOptionsView {
    pub msg_type: Option<u8>,
    pub server_id: Option<Seq<u8>>,
    pub subnet_mask: Option<u32>,
    pub router: Option<u32>,
    pub dns: Seq<u32>,
}

/// The addresses that a DNS option holds: one per whole group of four bytes.
pub open spec fn dns_chunks(val: Seq<u8>) -> Seq<u32>
    decreases val.len(),
{
    if val.len() < 4 {
        Seq::empty()
    } else {
        seq![be_u32(val) as u32] + dns_chunks(val.skip(4))
    }
}

/// The effect of one option on what has been read so far; later options of
/// a kind replace earlier ones, DNS servers add up.
pub open spec fn apply_option(acc: DhcpOptionsView, code: u8, val: Seq<u8>) -> DhcpOptionsView {
    if code == DHCP_OPT_MSG_TYPE && val.len() == 1 {
        DhcpOptionsView { msg_type: Some(val[0]), ..acc }
    } else if code == DHCP_OPT_SERVER_ID && val.len() == 4 {
        DhcpOptionsView { server_id: Some(val), ..acc }
    } else if code == DHCP_OPT_SUBNET && val.len() == 4 {
        DhcpOptionsView { subnet_mask: Some(be_u32(val) as u32), ..acc }
    } else if code == DHCP_OPT_ROUTER && val.len() >= 4 {
        DhcpOptionsView { router: Some(be_u32(val) as u32), ..acc }
    } else if code == DHCP_OPT_DNS {
        DhcpOptionsView { dns: acc.dns + dns_chunks(val), ..acc }
    } else {
        acc
    }
}

/// Reads the options that start at `i`: code, length, value, until the end
/// option, the end of the data, or an option that does not fit.
pub open spec fn parse_options(opts: Seq<u8>, i: int, acc: DhcpOptionsView) -> DhcpOptionsView
    decreases opts.len() - i,
{
    if i < 0 || i >= opts.len() || opts[i] == DHCP_OPT_END || i + 1 >= opts.len() || i + 2
        + opts[i + 1] > opts.len() {
        acc
    } else {
        parse_options(
            opts,
            i + 2 + opts[i + 1],
            apply_option(acc, opts[i], opts.subrange(i + 2, i + 2 + opts[i + 1])),
        )
    }
}

/// Where the options begin: right after the magic cookie, which ends the
/// 240-byte fixed header.
pub open spec fn options_start() -> int {
    240
}

/// The options of a DHCP reply.
pub open spec fn dhcp_options_of(data: Seq<u8>) -> DhcpOptionsView {
    parse_options(
        data.skip(options_start()),
        0,
        no_options(),
    )
}

#[derive(Debug, Clone, Copy, PartialEq, Eq, Structural)]
pub enum DhcpError {
    /// Fewer than 240 bytes: no room for the fixed header.
    PacketTooShort,
    /// A DHCPOFFER without a server identifier.
    MissingServerId,
    /// A reply to another transaction than ours.
    WrongTransaction,
    /// A reply to our request that is not a DHCPACK (a DHCPNAK, say).
    NotAck,
}

/// The options of a DHCP reply, as read by the client.
pub struct ParsedDhcp {
    pub msg_type: Option<u8>,
    pub server_id: Option<[u8; 4]>,
    pub subnet_mask: Option<u32>,
    pub router: Option<u32>,
    pub dns: Vec<u32>,
}

impl ParsedDhcp {
    pub open spec fn view(&self) -> DhcpOptionsView {
        DhcpOptionsView {
            msg_type: self.msg_type,
            server_id: match self.server_id {
                Some(a) => Some(a@),
                None => None,
            },
            subnet_mask: self.subnet_mask,
            router: self.router,
            dns: self.dns@,
        }
    }
}

/// Appends the addresses of a DNS option value `data[from..to]`.
fn push_dns(dns: &mut Vec<u32>, data: &[u8], from: usize, to: usize)
    requires
        from <= to <= data@.len(),
    ensures
        final(dns)@ == old(dns)@ + dns_chunks(data@.subrange(from as int, to as int)),
{
    let ghost val = data@.subrange(from as int, to as int);
    let ghost start = dns@;
    let mut p = from;
    proof {
        assert(val.skip(0) =~= val);
        assert(start + dns_chunks(val.skip(0)) == start + dns_chunks(val));
        assert(dns@ + dns_chunks(val.skip(0)) =~= start + dns_chunks(val)) by {
            assert(dns@ =~= start);
        }
    }
    while to - p >= 4
        invariant
            from <= p <= to,
            to <= data@.len(),
            val == data@.subrange(from as int, to as int),
            dns@ + dns_chunks(val.skip(p - from)) == start + dns_chunks(val),
        decreases to - p,
    {
        let ghost rest = val.skip(p - from);
        let v = u32_from_be(data[p], data[p + 1], data[p + 2], data[p + 3]);
        proof {
            assert(rest.len() >= 4);
            assert(seq![data@[p as int], data@[p + 1], data@[p + 2], data@[p + 3]] =~= rest.take(4));
            assert(be_u32(rest) == be_u32(rest.take(4)));
            assert(rest.skip(4) =~= val.skip(p + 4 - from));
            assert(dns_chunks(rest) == seq![be_u32(rest) as u32] + dns_chunks(rest.skip(4)));
        }
        dns.push(v);
        proof {
            assert(dns@ + dns_chunks(val.skip(p + 4 - from)) =~= start + dns_chunks(val));
        }
        p = p + 4;
    }
    proof {
        assert(dns_chunks(val.skip(p - from)) == Seq::<u32>::empty());
        assert(dns@ =~= start + dns_chunks(val));
    }
}

/// Parses the options of a DHCP reply.
pub fn parse_dhcp_packet(data: &[u8]) -> (r: Result<ParsedDhcp, DhcpError>)
    ensures
        data@.len() < 240 <==> r is Err,
        r matches Err(e) ==> e == DhcpError::PacketTooShort,
        r matches Ok(p) ==> p.view() == dhcp_options_of(data@),
{
    if data.len() < 240 {
        return Err(DhcpError::PacketTooShort);
    }
    let base: usize = 240;
    let ghost opts = data@.skip(base as int);
    let olen = data.len() - base;
    let mut r = ParsedDhcp { msg_type: None, server_id: None, subnet_mask: None, router: None, dns: Vec::new() };
    proof {
        assert(r.view() == no_options());
    }
    let mut i: usize = 0;
    while i < olen
        invariant
            base as int == options_start(),
            base <= data@.len(),
            olen == data@.len() - base,
            data@.len() <= usize::MAX,
            i <= olen,
            opts == data@.skip(base as int),
            opts.len() == olen,
            parse_options(opts, i as int, r.view()) == dhcp_options_of(data@),
        ensures
            parse_options(opts, i as int, r.view()) == r.view(),
            parse_options(opts, i as int, r.view()) == dhcp_options_of(data@),
        decreases olen - i,
    {
        let code = data[base + i];
        if code == DHCP_OPT_END {
            break;
        }
        if i + 1 >= olen {
            break;
        }
        let len = data[base + i + 1] as usize;
        if len > olen - i - 2 {
            break;
        }
        let from = base + i + 2;
        let to = from + len;
        let ghost val = opts.subrange(i + 2, i + 2 + len);
        let ghost before = r.view();
        proof {
            assert(opts[i as int] == code);
            assert(opts[i + 1] == len);
            assert(val =~= data@.subrange(from as int, to as int));
        }
        if code == DHCP_OPT_MSG_TYPE && len == 1 {
            r.msg_type = Some(data[from]);
        } else if code == DHCP_OPT_SERVER_ID && len == 4 {
            r.server_id = Some([data[from], data[from + 1], data[from + 2], data[from + 3]]);
            proof {
                assert(r.server_id.unwrap()@ =~= val);
            }
        } else if code == DHCP_OPT_SUBNET && len == 4 {
            r.subnet_mask = Some(u32_from_be(data[from], data[from + 1], data[from + 2], data[from + 3]));
            proof {
                assert(seq![data@[from as int], data@[from + 1], data@[from + 2], data@[from + 3]] =~= val.take(4));
            }
        } else if code == DHCP_OPT_ROUTER && len >= 4 {
            r.router = Some(u32_from_be(data[from], data[from + 1], data[from + 2], data[from + 3]));
            proof {
                assert(seq![data@[from as int], data@[from + 1], data@[from + 2], data@[from + 3]] =~= val.take(4));
            }
        } else if code == DHCP_OPT_DNS {
            push_dns(&mut r.dns, data, from, to);
        }
        proof {
            assert(r.view() == apply_option(before, code, val));
        }
        i = i + 2 + len;
    }
    Ok(r)
}


/// The magic cookie that ends the fixed header.
pub open spec fn dhcp_magic() -> Seq<u8> {
    seq![0x63u8, 0x82u8, 0x53u8, 0x63u8]
}

/// The fixed 240-byte header of a client message: op, Ethernet hardware type
/// and length, the transaction id, the broadcast flag, the client hardware
/// address and the magic cookie; every other byte is zero.
pub open spec fn dhcp_header(op: u8, xid: u32, chaddr: Seq<u8>) -> Seq<u8> {
    Seq::new(
        240,
        |i: int|
            if i == 0 {
                op
            } else if i == 1 {
                1u8
            } else if i == 2 {
                6u8
            } else if 4 <= i < 8 {
                be_bytes(xid)[i - 4]
            } else if i == 10 {
                0x80u8
            } else if 28 <= i < 34 {
                chaddr[i - 28]
            } else if 236 <= i < 240 {
                dhcp_magic()[i - 236]
            } else {
                0u8
            },
    )
}

/// The options of a client message: its message type, the parameters it asks
/// for (subnet mask, router, DNS), the server it answers if any, and the end.
pub open spec fn dhcp_option_bytes(msg_type: u8, server_id: Option<Seq<u8>>) -> Seq<u8> {
    seq![DHCP_OPT_MSG_TYPE, 1u8, msg_type, DHCP_OPT_REQ_LIST, 4u8, DHCP_OPT_SUBNET, DHCP_OPT_ROUTER, DHCP_OPT_DNS, 6u8]
        + match server_id {
        Some(sid) => seq![DHCP_OPT_SERVER_ID, 4u8] + sid,
        None => Seq::empty(),
    } + seq![DHCP_OPT_END]
}

/// A client message: header and options, padded with zeros to 300 bytes.
pub open spec fn dhcp_message(op: u8, xid: u32, chaddr: Seq<u8>, msg_type: u8, server_id: Option<Seq<u8>>) -> Seq<u8> {
    let p = dhcp_header(op, xid, chaddr) + dhcp_option_bytes(msg_type, server_id);
    if p.len() >= 300 {
        p
    } else {
        p + Seq::new((300 - p.len()) as nat, |i: int| 0u8)
    }
}

/// The empty reading of options.
pub open spec fn no_options() -> DhcpOptionsView {
    DhcpOptionsView { msg_type: None, server_id: None, subnet_mask: None, router: None, dns: Seq::empty() }
}

/// A client message, read back by the reply parser, gives its message type
/// and the server it was built for, and nothing else: no subnet mask, router
/// or DNS server.
pub proof fn client_message_reads_back(op: u8, xid: u32, chaddr: Seq<u8>, msg_type: u8, server_id: Option<Seq<u8>>)
    requires
        chaddr.len() == 6,
        (server_id matches Some(sid) ==> sid.len() == 4),
    ensures
        dhcp_options_of(dhcp_message(op, xid, chaddr, msg_type, server_id)) == (DhcpOptionsView {
            msg_type: Some(msg_type),
            server_id,
            ..no_options()
        }),
{
    let h = dhcp_header(op, xid, chaddr);
    let o = dhcp_option_bytes(msg_type, server_id);
    let m = dhcp_message(op, xid, chaddr, msg_type, server_id);
    let p = h + o;
    assert(h.len() == 240);
    assert(m.len() == 300);
    let q = m.skip(240);
    assert forall|j: int| 0 <= j < o.len() implies q[j] == o[j] by {
        assert(m[240 + j] == p[240 + j]);
    }
    let acc = no_options();
    let acc0 = DhcpOptionsView { msg_type: Some(msg_type), ..acc };
    assert(q[0] == DHCP_OPT_MSG_TYPE && q[1] == 1);
    assert(q.subrange(2, 3) =~= seq![msg_type]);
    assert(parse_options(q, 0, acc) == parse_options(q, 3, acc0));
    assert(q[3] == DHCP_OPT_REQ_LIST && q[4] == 4);
    assert(parse_options(q, 3, acc0) == parse_options(q, 9, acc0));
    match server_id {
        Some(sid) => {
            assert(q[9] == DHCP_OPT_SERVER_ID && q[10] == 4);
            assert(q.subrange(11, 15) =~= sid);
            let acc1 = DhcpOptionsView { server_id: Some(sid), ..acc0 };
            assert(parse_options(q, 9, acc0) == parse_options(q, 15, acc1));
            assert(q[15] == DHCP_OPT_END);
            assert(parse_options(q, 15, acc1) == acc1);
        },
        None => {
            assert(q[9] == DHCP_OPT_END);
        },
    }
}

/// Builds a DHCP client message.
pub fn build_dhcp_packet(op: u8, xid: u32, chaddr: &[u8; 6], msg_type: u8, server_id: Option<&[u8; 4]>) -> (r: Vec<u8>)
    ensures
        r@ == dhcp_message(
            op,
            xid,
            chaddr@,
            msg_type,
            match server_id {
                Some(s) => Some(s@),
                None => None,
            },
        ),
        r@.len() == 300,
{
    let mut pkt: Vec<u8> = Vec::new();
    for i in 0..240
        invariant
            pkt@ == Seq::new(i as nat, |j: int| 0u8),
    {
        pkt.push(0);
        proof {
            assert(pkt@ =~= Seq::new((i + 1) as nat, |j: int| 0u8));
        }
    }
    let x0 = (xid >> 24) as u8;
    let x1 = (xid >> 16) as u8;
    let x2 = (xid >> 8) as u8;
    let x3 = xid as u8;
    proof {
        assert(x0 == (xid / 16777216) as u8) by (bit_vector)
            requires x0 == (xid >> 24) as u8;
        assert(x1 == ((xid / 65536) % 256) as u8) by (bit_vector)
            requires x1 == (xid >> 16) as u8;
        assert(x2 == ((xid / 256) % 256) as u8) by (bit_vector)
            requires x2 == (xid >> 8) as u8;
        assert(x3 == (xid % 256) as u8) by (bit_vector)
            requires x3 == xid as u8;
    }
    pkt.set(0, op);
    pkt.set(1, 1);
    pkt.set(2, 6);
    pkt.set(4, x0);
    pkt.set(5, x1);
    pkt.set(6, x2);
    pkt.set(7, x3);
    pkt.set(10, 0x80);
    pkt.set(11, 0x00);
    pkt.set(28, chaddr[0]);
    pkt.set(29, chaddr[1]);
    pkt.set(30, chaddr[2]);
    pkt.set(31, chaddr[3]);
    pkt.set(32, chaddr[4]);
    pkt.set(33, chaddr[5]);
    pkt.set(236, 0x63);
    pkt.set(237, 0x82);
    pkt.set(238, 0x53);
    pkt.set(239, 0x63);
    let ghost sid = match server_id {
        Some(s) => Some(s@),
        None => None,
    };
    let ghost header = dhcp_header(op, xid, chaddr@);
    proof {
        assert(pkt@ =~= header);
    }
    let ghost opts = dhcp_option_bytes(msg_type, sid);
    pkt.push(DHCP_OPT_MSG_TYPE);
    pkt.push(1);
    pkt.push(msg_type);
    pkt.push(DHCP_OPT_REQ_LIST);
    pkt.push(4);
    pkt.push(DHCP_OPT_SUBNET);
    pkt.push(DHCP_OPT_ROUTER);
    pkt.push(DHCP_OPT_DNS);
    pkt.push(6);
    if let Some(s) = server_id {
        pkt.push(DHCP_OPT_SERVER_ID);
        pkt.push(4);
        pkt.push(s[0]);
        pkt.push(s[1]);
        pkt.push(s[2]);
        pkt.push(s[3]);
    }
    pkt.push(DHCP_OPT_END);
    proof {
        assert(pkt@ =~= header + opts);
    }
    let ghost p = pkt@;
    while pkt.len() < 300
        invariant
            p.len() <= pkt@.len() <= 300,
            pkt@ == p + Seq::new((pkt@.len() - p.len()) as nat, |i: int| 0u8),
        decreases 300 - pkt@.len(),
    {
        pkt.push(0);
        proof {
            assert(pkt@ =~= p + Seq::new((pkt@.len() - p.len()) as nat, |i: int| 0u8));
        }
    }
    pkt
}


/// The first DHCP message: DHCPDISCOVER.
pub fn dhcp_discover(xid: u32, mac: &[u8; 6]) -> (r: Vec<u8>)
    ensures
        r@ == dhcp_message(1, xid, mac@, DHCP_OPT_DISCOVER, None),
{
    build_dhcp_packet(1, xid, mac, DHCP_OPT_DISCOVER, None)
}

/// The answer to a DHCPOFFER: a DHCPREQUEST naming the offering server.
pub fn dhcp_request(xid: u32, mac: &[u8; 6], offer: &[u8]) -> (r: Result<Vec<u8>, DhcpError>)
    ensures
        offer@.len() < 240 ==> r == Err::<Vec<u8>, DhcpError>(DhcpError::PacketTooShort),
        offer@.len() >= 240 && dhcp_options_of(offer@).server_id is None ==> r == Err::<
            Vec<u8>,
            DhcpError,
        >(DhcpError::MissingServerId),
        offer@.len() >= 240 && dhcp_options_of(offer@).server_id is Some ==> (r matches Ok(p) && p@
            == dhcp_message(1, xid, mac@, DHCP_OPT_REQUEST, dhcp_options_of(offer@).server_id)),
{
    let parsed = match parse_dhcp_packet(offer) {
        Ok(p) => p,
        Err(e) => return Err(e),
    };
    match parsed.server_id {
        Some(sid) => Ok(build_dhcp_packet(1, xid, mac, DHCP_OPT_REQUEST, Some(&sid))),
        None => Err(DhcpError::MissingServerId),
    }
}

/// The address a reply carries (`yiaddr`, bytes 16 to 19).
pub open spec fn your_address(data: Seq<u8>) -> u32 {
    be_u32(data.subrange(16, 20)) as u32
}

/// The transaction id a reply carries (`xid`, bytes 4 to 7).
pub open spec fn reply_xid(data: Seq<u8>) -> u32 {
    be_u32(data.subrange(4, 8)) as u32
}

/// The message type of a DHCPACK.
pub const DHCP_ACK: u8 = 5;

/// The lease that the reply to our DHCPREQUEST grants: it must answer our
/// transaction `xid` and be a DHCPACK; a missing subnet mask means /24.
pub fn dhcp_lease(ack: &[u8], xid: u32) -> (r: Result<DhcpLease, DhcpError>)
    ensures
        ack@.len() < 240 ==> r == Err::<DhcpLease, DhcpError>(DhcpError::PacketTooShort),
        ack@.len() >= 240 && reply_xid(ack@) != xid ==> r == Err::<DhcpLease, DhcpError>(
            DhcpError::WrongTransaction,
        ),
        ack@.len() >= 240 && reply_xid(ack@) == xid && dhcp_options_of(ack@).msg_type != Some(DHCP_ACK)
            ==> r == Err::<DhcpLease, DhcpError>(DhcpError::NotAck),
        r is Ok <==> (ack@.len() >= 240 && reply_xid(ack@) == xid && dhcp_options_of(ack@).msg_type == Some(
            DHCP_ACK,
        )),
        r matches Ok(l) ==> {
            &&& l.ip == your_address(ack@)
            &&& l.netmask == match dhcp_options_of(ack@).subnet_mask {
                Some(m) => m,
                None => 0xFFFFFF00u32,
            }
            &&& l.gateway == dhcp_options_of(ack@).router
            &&& l.dns@ == dhcp_options_of(ack@).dns
        },
{
    let parsed = match parse_dhcp_packet(ack) {
        Ok(p) => p,
        Err(e) => return Err(e),
    };
    let got = u32_from_be(ack[4], ack[5], ack[6], ack[7]);
    proof {
        assert(seq![ack@[4], ack@[5], ack@[6], ack@[7]] =~= ack@.subrange(4, 8));
    }
    if got != xid {
        return Err(DhcpError::WrongTransaction);
    }
    match parsed.msg_type {
        Some(t) => {
            if t != DHCP_ACK {
                return Err(DhcpError::NotAck);
            }
        },
        None => {
            return Err(DhcpError::NotAck);
        },
    }
    let ip = u32_from_be(ack[16], ack[17], ack[18], ack[19]);
    proof {
        assert(seq![ack@[16], ack@[17], ack@[18], ack@[19]] =~= ack@.subrange(16, 20));
    }
    let netmask = match parsed.subnet_mask {
        Some(m) => m,
        None => 0xFFFFFF00u32,
    };
    Ok(DhcpLease { ip, netmask, gateway: parsed.router, dns: parsed.dns })
}

/// The DHCP transaction id: the process id mixed with the time in seconds.
pub fn transaction_id(pid: i32, secs: u64) -> (r: u32)
    ensures
        r == (pid as u32) ^ (secs as u32),
{
    (pid as u32) ^ (secs as u32)
}

/// The hardware address to send: the interface's own, or a fixed fallback.
pub fn client_hardware_address(iface_mac: Option<[u8; 6]>) -> (r: [u8; 6])
    ensures
        r@ == match iface_mac {
            Some(m) => m@,
            None => seq![0x00u8, 0x11u8, 0x22u8, 0x33u8, 0x44u8, 0x55u8],
        },
{
    match iface_mac {
        Some(m) => m,
        None => {
            let m = [0x00u8, 0x11, 0x22, 0x33, 0x44, 0x55];
            proof {
                assert(m@ =~= seq![0x00u8, 0x11u8, 0x22u8, 0x33u8, 0x44u8, 0x55u8]);
            }
            m
        },
    }
}

#[derive(Debug, Clone, Copy, PartialEq, Eq, Structural)]
pub enum NetError {
    /// The prefix length after '/' is not a number.
    InvalidPrefix,
    /// The prefix length is over 32.
    PrefixTooLong,
    /// Not four dotted decimal octets.
    InvalidIpv4,
}

/// Dotted decimal notation of an address.
pub open spec fn ip_text(addr: u32) -> Seq<char> {
    let b = be_bytes(addr);
    decimal(b[0] as nat) + seq!['.'] + decimal(b[1] as nat) + seq!['.'] + decimal(b[2] as nat) + seq!['.']
        + decimal(b[3] as nat)
}

pub fn fmt_ip(addr: u32) -> (r: String)
    ensures
        r@ == ip_text(addr),
{
    let dot = ".";
    proof {
        reveal_strlit(".");
    }
    let b0 = addr / 16777216;
    let b1 = (addr / 65536) % 256;
    let b2 = (addr / 256) % 256;
    let b3 = addr % 256;
    let mut s = decimal_string(b0 as u64);
    s.append(dot);
    s.append(decimal_string(b1 as u64).as_str());
    s.append(dot);
    s.append(decimal_string(b2 as u64).as_str());
    s.append(dot);
    s.append(decimal_string(b3 as u64).as_str());
    proof {
        let b = be_bytes(addr);
        assert(b[0] as nat == b0 as nat);
        assert(b[1] as nat == b1 as nat);
        assert(b[2] as nat == b2 as nat);
        assert(b[3] as nat == b3 as nat);
        assert(s@ =~= ip_text(addr));
    }
    s
}

/// The address that dotted decimal text names: four octets, each a number
/// of at most 255 as `str::parse` reads it.
pub open spec fn ipv4_of(s: Seq<char>) -> Option<u32> {
    let parts = split_on(s, '.');
    if parts.len() == 4 && forall|i: int| 0 <= i < 4 ==> #[trigger] parse_unsigned(parts[i], 255) is Some {
        Some(
            (parse_unsigned(parts[0], 255).unwrap() * 16777216 + parse_unsigned(parts[1], 255).unwrap()
                * 65536 + parse_unsigned(parts[2], 255).unwrap() * 256 + parse_unsigned(parts[3], 255).unwrap()) as u32,
        )
    } else {
        None
    }
}

proof fn lemma_unsigned_bound(s: Seq<char>, max: nat, small: nat)
    requires
        small <= max,
    ensures
        parse_unsigned(s, small) == match parse_unsigned(s, max) {
            Some(v) => if v <= small { Some(v) } else { None::<nat> },
            None => None::<nat>,
        },
{
}

pub fn parse_ipv4(s: &str) -> (r: Result<u32, NetError>)
    ensures
        match r {
            Ok(v) => ipv4_of(s@) == Some(v),
            Err(e) => ipv4_of(s@) is None && e == NetError::InvalidIpv4,
        },
{
    let cs = chars_of(s);
    let parts = split_ranges(&cs, 0, cs.len(), '.');
    let ghost ps = pieces(cs@, parts@);
    proof {
        assert(cs@.subrange(0, cs@.len() as int) =~= s@);
    }
    let mut octets: Vec<u32> = Vec::new();
    for i in 0..parts.len()
        invariant
            ranges_within(parts@, 0, cs@.len() as int),
            ps == pieces(cs@, parts@),
            ps == split_on(s@, '.'),
            octets@.len() == i,
            forall|j: int| 0 <= j < i ==> parse_unsigned(#[trigger] ps[j], 4294967295) == Some(octets@[j] as nat),
    {
        let (a, b) = parts[i];
        proof {
            assert(ranges_within(parts@, 0, cs@.len() as int));
            assert(parts@[i as int] == (a, b));
            assert(ps[i as int] == cs@.subrange(a as int, b as int));
        }
        match parse_unsigned_in(&cs, a, b, 4294967295) {
            Some(v) => {
                octets.push(v as u32);
            },
            None => {
                proof {
                    lemma_unsigned_bound(ps[i as int], 4294967295, 255);
                }
                return Err(NetError::InvalidIpv4);
            },
        }
    }
    if octets.len() != 4 || octets[0] > 255 || octets[1] > 255 || octets[2] > 255 || octets[3] > 255 {
        proof {
            if octets.len() == 4 {
                let k = if octets@[0] > 255 { 0int } else if octets@[1] > 255 { 1 } else if octets@[2] > 255 { 2 } else { 3 };
                lemma_unsigned_bound(ps[k], 4294967295, 255);
                assert(parse_unsigned(ps[k], 255) is None);
            }
        }
        return Err(NetError::InvalidIpv4);
    }
    proof {
        assert forall|i: int| 0 <= i < 4 implies #[trigger] parse_unsigned(ps[i], 255) == Some(octets@[i] as nat) by {
            lemma_unsigned_bound(ps[i], 4294967295, 255);
        }
    }
    Ok(octets[0] * 16777216 + octets[1] * 65536 + octets[2] * 256 + octets[3])
}

proof fn lemma_octet_text(b: u8)
    ensures
        parse_unsigned(decimal(b as nat), 255) == Some(b as nat),
        forall|i: int| 0 <= i < decimal(b as nat).len() ==> decimal(b as nat)[i] != '.',
{
    lemma_decimal_digits(b as nat);
    let d = decimal(b as nat);
    assert(is_digit(d[0]));
    assert forall|i: int| 0 <= i < d.len() implies d[i] != '.' by {
        assert(is_digit(d[i]));
    }
}

/// Reading back the dotted decimal text of an address gives the address.
pub proof fn ipv4_text_round_trip(addr: u32)
    ensures
        ipv4_of(ip_text(addr)) == Some(addr),
{
    let b = be_bytes(addr);
    let d0 = decimal(b[0] as nat);
    let d1 = decimal(b[1] as nat);
    let d2 = decimal(b[2] as nat);
    let d3 = decimal(b[3] as nat);
    lemma_octet_text(b[0]);
    lemma_octet_text(b[1]);
    lemma_octet_text(b[2]);
    lemma_octet_text(b[3]);
    lemma_split_on_whole(d0, '.');
    lemma_split_on_whole(d1, '.');
    lemma_split_on_whole(d2, '.');
    lemma_split_on_whole(d3, '.');
    lemma_split_on_join(d0, '.', d1);
    lemma_split_on_join(d0 + seq!['.'] + d1, '.', d2);
    lemma_split_on_join(d0 + seq!['.'] + d1 + seq!['.'] + d2, '.', d3);
    let parts = split_on(ip_text(addr), '.');
    assert(parts =~= seq![d0, d1, d2, d3]);
    assert(b[0] * 16777216 + b[1] * 65536 + b[2] * 256 + b[3] == addr) by (nonlinear_arith)
        requires
            b[0] == addr / 16777216,
            b[1] == (addr / 65536) % 256,
            b[2] == (addr / 256) % 256,
            b[3] == addr % 256,
    ;
}

/// Position of the first '/' in CIDR text, if any.
pub open spec fn slash_pos(s: Seq<char>) -> Option<int> {
    if exists|k: int| 0 <= k < s.len() && s[k] == '/' {
        Some(choose|k: int| 0 <= k < s.len() && s[k] == '/' && forall|j: int| 0 <= j < k ==> s[j] != '/')
    } else {
        None
    }
}

/// The address and prefix length of CIDR text: "a.b.c.d/p", or a bare address
/// with prefix 24.
pub open spec fn cidr_of(s: Seq<char>) -> Option<(Seq<char>, nat)> {
    match slash_pos(s) {
        Some(k) => match parse_unsigned(s.skip(k + 1), 255) {
            Some(p) => if p <= 32 { Some((s.take(k), p)) } else { None },
            None => None,
        },
        None => Some((s, 24)),
    }
}

pub fn parse_cidr(input: &str) -> (r: Result<(&str, u8), NetError>)
    ensures
        r is Err <==> cidr_of(input@) is None,
        match r {
            Ok((a, p)) => cidr_of(input@) == Some((a@, p as nat)),
            Err(e) => slash_pos(input@) matches Some(k) && if e == NetError::InvalidPrefix {
                parse_unsigned(input@.skip(k + 1), 255) is None
            } else {
                e == NetError::PrefixTooLong && (parse_unsigned(input@.skip(k + 1), 255) matches Some(p) && p > 32)
            },
        },
{
    let cs = chars_of(input);
    let n = cs.len();
    match find_char(&cs, 0, n, '/') {
        Some(k) => {
            proof {
                assert(input@[k as int] == '/');
                let kk = slash_pos(input@).unwrap();
                if kk < k {
                    assert(input@[kk] != '/');
                }
                if k < kk {
                    assert(input@[k as int] != '/');
                }
                assert(kk == k);
                assert(cs@.subrange(k + 1, n as int) =~= input@.skip(k + 1));
            }
            match parse_unsigned_in(&cs, k + 1, n, 255) {
                Some(p) => {
                    if p > 32 {
                        return Err(NetError::PrefixTooLong);
                    }
                    let a = input.substring_char(0, k);
                    proof {
                        assert(a@ =~= input@.take(k as int));
                    }
                    Ok((a, p as u8))
                },
                None => Err(NetError::InvalidPrefix),
            }
        },
        None => {
            Ok((input, 24))
        },
    }
}

/// The netmask of a prefix length: the top `p` bits set.
pub fn prefix_to_netmask(p: u8) -> (r: u32)
    requires
        p <= 32,
    ensures
        r as nat == if p == 0 {
            0
        } else {
            vstd::arithmetic::power2::pow2(32) - vstd::arithmetic::power2::pow2((32 - p) as nat)
        },
{
    if p == 0 {
        0
    } else {
        let sh: u32 = 32 - p as u32;
        let r = !0u32 << sh;
        proof {
            assert(r == 0xFFFF_FFFFu32 - ((1u32 << sh) - 1u32)) by (bit_vector)
                requires
                    r == !0u32 << sh,
                    sh < 32,
            ;
            vstd::bits::lemma_u32_pow2_no_overflow(sh as nat);
            vstd::bits::lemma_u32_shl_is_mul(1, sh);
            vstd::arithmetic::power2::lemma2_to64();
            vstd::arithmetic::power2::lemma_pow2_pos(sh as nat);
        }
        r
    }
}

/// The text of /etc/resolv.conf for a list of name servers.
pub open spec fn resolv_conf_text(servers: Seq<Seq<char>>) -> Seq<char>
    decreases servers.len(),
{
    if servers.len() == 0 {
        Seq::empty()
    } else {
        resolv_conf_text(servers.drop_last()) + "nameserver "@ + servers.last() + "\n"@
    }
}

pub fn resolv_conf(servers: &[String]) -> (r: String)
    ensures
        r@ == resolv_conf_text(servers@.map_values(|s: String| s@)),
{
    let mut out = String::new();
    let ghost sv = servers@.map_values(|s: String| s@);
    for i in 0..servers.len()
        invariant
            sv == servers@.map_values(|s: String| s@),
            out@ == resolv_conf_text(sv.take(i as int)),
    {
        let ghost before = out@;
        out.append("nameserver ");
        out.append(servers[i].as_str());
        out.append("\n");
        proof {
            assert(sv.take(i + 1).drop_last() =~= sv.take(i as int));
            assert(sv.take(i + 1).last() == servers@[i as int]@);
        }
    }
    proof {
        assert(sv.take(servers@.len() as int) =~= sv);
        if servers@.len() == 0 {
            assert(out@ =~= Seq::<char>::empty());
        }
    }
    out
}


/// The hardware address that the text of a sysfs `address` file gives: six
/// hexadecimal bytes separated by ':', surrounding white space ignored.
pub open spec fn mac_of(s: Seq<char>) -> Option<Seq<u8>> {
    let parts = split_on(trim(s), ':');
    if parts.len() == 6 && forall|i: int| 0 <= i < 6 ==> #[trigger] parse_hex(parts[i], 255) is Some {
        Some(Seq::new(6, |i: int| parse_hex(parts[i], 255).unwrap() as u8))
    } else {
        None
    }
}

pub fn parse_mac(text: &str) -> (r: Option<[u8; 6]>)
    ensures
        match r {
            Some(m) => mac_of(text@) == Some(m@),
            None => mac_of(text@) is None,
        },
{
    let cs = chars_of(text);
    let (a, b) = trim_range(&cs, 0, cs.len());
    proof {
        assert(cs@.subrange(0, cs@.len() as int) =~= text@);
    }
    let parts = split_ranges(&cs, a, b, ':');
    let ghost ps = pieces(cs@, parts@);
    if parts.len() != 6 {
        return None;
    }
    let mut mac = [0u8; 6];
    for i in 0..6
        invariant
            parts@.len() == 6,
            ranges_within(parts@, a as int, b as int),
            b <= cs@.len(),
            ps == pieces(cs@, parts@),
            ps == split_on(trim(text@), ':'),
            forall|j: int| 0 <= j < i ==> parse_hex(#[trigger] ps[j], 255) == Some(mac@[j] as nat),
    {
        let (x, y) = parts[i];
        proof {
            assert(parts@[i as int] == (x, y));
            assert(ps[i as int] == cs@.subrange(x as int, y as int));
        }
        match parse_hex_in(&cs, x, y, 255) {
            Some(v) => {
                mac[i] = v as u8;
            },
            None => {
                return None;
            },
        }
    }
    proof {
        assert(mac@ =~= Seq::new(6, |i: int| parse_hex(ps[i], 255).unwrap() as u8));
    }
    Some(mac)
}

} // verus!
