use rinit::net::{
    build_dhcp_packet, client_hardware_address, dhcp_discover, dhcp_lease,
    dhcp_request, fmt_ip, parse_cidr, parse_dhcp_packet, parse_ipv4, parse_mac, prefix_to_netmask,
    resolv_conf, transaction_id, DhcpError, NetError,
};

fn reply(opts: &[u8], yiaddr: [u8; 4]) -> Vec<u8> {
    let mut p = vec![0u8; 236];
    p[0] = 2;
    p[16..20].copy_from_slice(&yiaddr);
    p.extend_from_slice(&[0x63, 0x82, 0x53, 0x63]);
    p.extend_from_slice(opts);
    p
}

#[test]
fn discover_packet_layout() {
    let mac = [1, 2, 3, 4, 5, 6];
    let p = dhcp_discover(0x11223344, &mac);
    assert_eq!(p.len(), 300);
    assert_eq!(&p[0..3], &[1, 1, 6]);
    assert_eq!(&p[4..8], &[0x11, 0x22, 0x33, 0x44]);
    assert_eq!(&p[10..12], &[0x80, 0x00]);
    assert_eq!(&p[28..34], &mac);
    assert_eq!(&p[236..240], &[0x63, 0x82, 0x53, 0x63]);
    assert_eq!(&p[240..250], &[53, 1, 1, 55, 4, 1, 3, 6, 6, 255]);
    assert!(p[250..].iter().all(|&b| b == 0));
}

#[test]
fn request_packet_names_the_server() {
    let p = build_dhcp_packet(1, 7, &[0; 6], 3, Some(&[10, 0, 0, 1]));
    assert_eq!(p.len(), 300);
    assert_eq!(&p[240..256], &[53, 1, 3, 55, 4, 1, 3, 6, 6, 54, 4, 10, 0, 0, 1, 255]);
}

#[test]
fn parse_reply_options() {
    let opts = [
        53, 1, 2, 54, 4, 10, 0, 0, 1, 1, 4, 255, 255, 0, 0, 3, 8, 10, 0, 0, 254, 9, 9, 9, 9, 6, 10,
        8, 8, 8, 8, 1, 1, 1, 1, 7, 7, 255,
    ];
    let data = reply(&opts, [10, 0, 0, 42]);
    let p = parse_dhcp_packet(&data).unwrap();
    assert_eq!(p.server_id, Some([10, 0, 0, 1]));
    assert_eq!(p.subnet_mask, Some(0xFFFF0000));
    assert_eq!(p.router, Some(0x0A0000FE));
    assert_eq!(p.dns, vec![0x08080808, 0x01010101]);
}

#[test]
fn short_reply_is_refused() {
    assert!(matches!(parse_dhcp_packet(&[0u8; 100]), Err(DhcpError::PacketTooShort)));
    assert!(matches!(dhcp_lease(&[0u8; 239], 0), Err(DhcpError::PacketTooShort)));
}

#[test]
fn truncated_option_stops_parsing() {
    let data = reply(&[1, 4, 255, 255, 255, 0, 3, 9, 1, 2], [0; 4]);
    let p = parse_dhcp_packet(&data).unwrap();
    assert_eq!(p.subnet_mask, Some(0xFFFFFF00));
    assert_eq!(p.router, None);
}

#[test]
fn options_start_after_the_cookie_whatever_the_header_holds() {
    let mut data = vec![0u8; 19];
    data.push(0x63);
    data.extend_from_slice(&[0u8; 216]);
    data.extend_from_slice(&[0x63, 0x82, 0x53, 0x63]);
    data.extend_from_slice(&[54, 4, 10, 0, 0, 1, 255]);
    let r = parse_dhcp_packet(&data).unwrap();
    assert_eq!(r.server_id, Some([10, 0, 0, 1]));
    assert_eq!(r.subnet_mask, None);
    assert_eq!(r.router, None);
    assert!(r.dns.is_empty());
    let bare = vec![0u8; 240];
    assert_eq!(parse_dhcp_packet(&bare).unwrap().server_id, None);
}

#[test]
fn offer_then_ack() {
    let offer = reply(&[53, 1, 2, 54, 4, 192, 168, 1, 1, 255], [192, 168, 1, 50]);
    let req = dhcp_request(9, &[0; 6], &offer).unwrap();
    assert_eq!(&req[240..256], &[53, 1, 3, 55, 4, 1, 3, 6, 6, 54, 4, 192, 168, 1, 1, 255]);
    let no_server = reply(&[53, 1, 2, 255], [0; 4]);
    assert!(matches!(dhcp_request(9, &[0; 6], &no_server), Err(DhcpError::MissingServerId)));
    let mut ack = reply(&[53, 1, 5, 3, 4, 192, 168, 1, 1, 255], [192, 168, 1, 50]);
    ack[4..8].copy_from_slice(&[0, 0, 0, 9]);
    let lease = dhcp_lease(&ack, 9).unwrap();
    assert_eq!(lease.ip, 0xC0A80132);
    assert_eq!(lease.netmask, 0xFFFFFF00);
    assert_eq!(lease.gateway, Some(0xC0A80101));
    assert!(lease.dns.is_empty());
}

#[test]
fn ip_text_round_trip() {
    assert_eq!(fmt_ip(0xC0A80001), "192.168.0.1");
    assert_eq!(fmt_ip(0), "0.0.0.0");
    assert_eq!(parse_ipv4("192.168.0.1"), Ok(0xC0A80001));
    assert_eq!(parse_ipv4(&fmt_ip(0x0A0B0C0D)), Ok(0x0A0B0C0D));
    assert_eq!(parse_ipv4("+1.2.3.4"), Ok(0x01020304));
}

#[test]
fn bad_ipv4_is_refused() {
    assert_eq!(parse_ipv4("256.0.0.1"), Err(NetError::InvalidIpv4));
    assert_eq!(parse_ipv4("1.2.3"), Err(NetError::InvalidIpv4));
    assert_eq!(parse_ipv4("1.2.3.4.5"), Err(NetError::InvalidIpv4));
    assert_eq!(parse_ipv4("1.2.x.4"), Err(NetError::InvalidIpv4));
    assert_eq!(parse_ipv4(""), Err(NetError::InvalidIpv4));
}

#[test]
fn cidr_parsing() {
    assert_eq!(parse_cidr("10.0.0.2/16"), Ok(("10.0.0.2", 16)));
    assert_eq!(parse_cidr("10.0.0.2"), Ok(("10.0.0.2", 24)));
    assert_eq!(parse_cidr("10.0.0.2/33"), Err(NetError::PrefixTooLong));
    assert_eq!(parse_cidr("10.0.0.2/x"), Err(NetError::InvalidPrefix));
    assert_eq!(parse_cidr("10.0.0.2/300"), Err(NetError::InvalidPrefix));
}

#[test]
fn netmasks() {
    assert_eq!(prefix_to_netmask(0), 0);
    assert_eq!(prefix_to_netmask(8), 0xFF000000);
    assert_eq!(prefix_to_netmask(24), 0xFFFFFF00);
    assert_eq!(prefix_to_netmask(32), 0xFFFFFFFF);
}

#[test]
fn resolv_conf_lists_servers() {
    assert_eq!(
        resolv_conf(&["1.1.1.1".to_string(), "8.8.8.8".to_string()]),
        "nameserver 1.1.1.1\nnameserver 8.8.8.8\n"
    );
    assert_eq!(resolv_conf(&[]), "");
}

#[test]
fn mac_parsing() {
    assert_eq!(parse_mac("52:54:00:aB:cd:EF\n"), Some([0x52, 0x54, 0x00, 0xab, 0xcd, 0xef]));
    assert_eq!(parse_mac("52:54:00:ab:cd"), None);
    assert_eq!(parse_mac("52:54:00:ab:cd:1ff"), None);
    assert_eq!(client_hardware_address(None), [0x00, 0x11, 0x22, 0x33, 0x44, 0x55]);
    assert_eq!(client_hardware_address(Some([1; 6])), [1; 6]);
}

#[test]
fn transaction_id_mixes_pid_and_time() {
    assert_eq!(transaction_id(0x10, 0x1_0000_0001), 0x11);
}

#[test]
fn address_text_reads_back() {
    for a in [0u32, 1, 0x7f000001, 0xc0a80164, 0x0a00ff09, 0xffffffff, 0x01020304] {
        assert_eq!(parse_ipv4(&fmt_ip(a)), Ok(a));
    }
}

#[test]
fn client_message_reads_back_its_server() {
    let p = build_dhcp_packet(1, 0x01020304, &[1, 2, 3, 4, 5, 6], 3, Some(&[10, 0, 0, 1]));
    let r = parse_dhcp_packet(&p).unwrap();
    assert_eq!(r.msg_type, Some(3));
    assert_eq!(r.server_id, Some([10, 0, 0, 1]));
    assert_eq!(r.subnet_mask, None);
    assert_eq!(r.router, None);
    assert!(r.dns.is_empty());
    let d = parse_dhcp_packet(&dhcp_discover(7, &[0; 6])).unwrap();
    assert_eq!(d.server_id, None);
}

#[test]
fn lease_needs_our_transaction_and_an_ack() {
    let mut ack = reply(&[53, 1, 5, 1, 4, 255, 255, 0, 0, 255], [10, 0, 0, 7]);
    ack[4..8].copy_from_slice(&[0x11, 0x22, 0x33, 0x44]);
    assert_eq!(dhcp_lease(&ack, 0x11223344).unwrap().netmask, 0xFFFF0000);
    assert!(matches!(dhcp_lease(&ack, 0x11223345), Err(DhcpError::WrongTransaction)));
    let mut nak = reply(&[53, 1, 6, 255], [0; 4]);
    nak[4..8].copy_from_slice(&[0x11, 0x22, 0x33, 0x44]);
    assert!(matches!(dhcp_lease(&nak, 0x11223344), Err(DhcpError::NotAck)));
    let mut untyped = reply(&[255], [0; 4]);
    untyped[4..8].copy_from_slice(&[0x11, 0x22, 0x33, 0x44]);
    assert!(matches!(dhcp_lease(&untyped, 0x11223344), Err(DhcpError::NotAck)));
}
