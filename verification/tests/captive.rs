use hub::address::Ip;
use hub::captive::{
    associated, foreign_host, nft_acked, parse_ap_iface, parse_mac_for_ip, parse_station_macs,
    Acks, Reaper, GRACE,
};

const IW_DEV: &str = "\
phy#2
\tInterface wlan1
\t\tifindex 6
\t\twdev 0x200000001
\t\taddr 74:da:38:0c:22:08
\t\tssid campus-uplink
\t\ttype managed
\t\tchannel 1 (2412 MHz), width: 20 MHz, center1: 2412 MHz
\t\ttxpower 20.00 dBm
phy#0
\tUnnamed/non-netdev interface
\t\twdev 0x2
\t\taddr 8a:a2:9e:6c:a2:f5
\t\ttype P2P-device
\t\ttxpower 31.00 dBm
\tInterface wlan0
\t\tifindex 3
\t\twdev 0x1
\t\taddr 88:a2:9e:6c:a2:f5
\t\tssid hub-a2f5
\t\ttype AP
\t\tchannel 6 (2437 MHz), width: 20 MHz, center1: 2437 MHz
\t\ttxpower 31.00 dBm
";

#[test]
fn ap_iface_is_found_by_type_not_by_name() {
    assert_eq!(parse_ap_iface(IW_DEV).as_deref(), Some("wlan0"));
}

#[test]
fn unnamed_p2p_block_never_inherits_the_previous_name() {
    let only_p2p = "phy#0\n\tInterface wlan1\n\t\ttype managed\n\tUnnamed/non-netdev interface\n\t\ttype AP\n";
    assert_eq!(parse_ap_iface(only_p2p), None);
}

#[test]
fn no_ap_up_is_none_not_a_guess() {
    assert_eq!(parse_ap_iface("phy#2\n\tInterface wlan1\n\t\ttype managed\n"), None);
}

const STATION_DUMP: &str = "\
Station 16:3e:5a:1c:44:02 (on wlan0)
\tinactive time:\t17000 ms
\trx bytes:\t1600165
\ttx bitrate:\t72.2 MBit/s
\tauthorized:\tno
\tassociated:\tyes
Station d4:e9:f4:0b:11:07 (on wlan0)
\tinactive time:\t120 ms
\tassociated:\tyes
";

#[test]
fn station_macs_are_every_associated_device() {
    let macs = parse_station_macs(STATION_DUMP);
    assert_eq!(macs.len(), 2);
    assert!(macs.contains("16:3e:5a:1c:44:02"));
    assert!(macs.contains("d4:e9:f4:0b:11:07"));
}

#[test]
fn empty_station_dump_is_empty_not_an_error() {
    assert!(parse_station_macs("").is_empty());
}

const IP_NEIGH: &str = "\
10.42.0.174 dev wlan0 FAILED 
10.42.0.99 dev wlan0 lladdr d4:e9:f4:0b:11:07 REACHABLE 
10.42.0.161 dev wlan0 lladdr 16:3e:5a:1c:44:02 STALE 
fe80::143e:5aff:fe1c:4402 dev wlan0 lladdr 16:3e:5a:1c:44:02 STALE
";

fn v4(text: &str) -> Ip {
    let parts: Vec<u8> = text.split('.').map(|p| p.parse().unwrap()).collect();
    Ip::V4(parts[0], parts[1], parts[2], parts[3])
}

#[test]
fn mac_for_ip_reads_lladdr_regardless_of_nud_state() {
    let ip = v4("10.42.0.161");
    assert_eq!(parse_mac_for_ip(IP_NEIGH, &ip).as_deref(), Some("16:3e:5a:1c:44:02"));
}

#[test]
fn mac_for_ip_does_not_prefix_match_a_longer_address() {
    let ip = v4("10.42.0.17");
    assert_eq!(parse_mac_for_ip(IP_NEIGH, &ip), None);
}

#[test]
fn failed_entry_yields_no_mac() {
    let ip = v4("10.42.0.174");
    assert_eq!(parse_mac_for_ip(IP_NEIGH, &ip), None);
}

#[test]
fn unknown_ip_yields_no_mac() {
    let ip = v4("10.42.0.222");
    assert_eq!(parse_mac_for_ip(IP_NEIGH, &ip), None);
}

#[test]
fn addresses_print_as_they_are_written() {
    assert_eq!(Ip::V4(10, 42, 0, 161).text(), "10.42.0.161");
    assert_eq!(Ip::V6("fe80::1".to_string()).text(), "fe80::1");
    let v6 = Ip::V6("fe80::143e:5aff:fe1c:4402".to_string());
    assert_eq!(parse_mac_for_ip(IP_NEIGH, &v6).as_deref(), Some("16:3e:5a:1c:44:02"));
}

#[test]
fn addresses_with_the_same_digits_are_different() {
    assert!(!Ip::V4(1, 1, 11, 1).equals(&Ip::V4(1, 11, 1, 1)));
    assert_ne!(Ip::V4(1, 1, 11, 1).text(), Ip::V4(1, 11, 1, 1).text());
    assert!(Ip::V4(1, 2, 3, 4).equals(&Ip::V4(1, 2, 3, 4).copy()));
    assert!(!Ip::V4(0, 0, 0, 1).equals(&Ip::V6("::1".to_string())));
}

#[test]
fn macs_are_lowered_and_counted_once() {
    let macs = parse_station_macs(
        "Station AA:BB:CC:00:11:22 (on wlan0)\nStation aa:bb:cc:00:11:22 (on wlan0)\n Station x\nStation \n",
    );
    assert_eq!(macs.len(), 1);
    assert!(macs.contains("aa:bb:cc:00:11:22"));
    assert!(!macs.contains("AA:BB:CC:00:11:22"));
    let neigh = "10.0.0.1 dev w lladdr AA:bb:00:00:00:01 STALE\n";
    assert_eq!(
        parse_mac_for_ip(neigh, &Ip::V4(10, 0, 0, 1)).as_deref(),
        Some("aa:bb:00:00:00:01")
    );
    assert_eq!(parse_mac_for_ip("10.0.0.1 lladdr\n", &Ip::V4(10, 0, 0, 1)), None);
}

fn mac(n: u8) -> Option<String> {
    Some(format!("00:00:00:00:00:0{n}"))
}

fn dump(n: u8) -> String {
    format!("Station 00:00:00:00:00:0{n} (on wlan0)\n")
}

#[test]
fn an_accept_releases_one_device() {
    let mut acks = Acks::new();
    assert!(acks.is_empty());
    acks.accept(mac(1), Ip::V4(10, 42, 0, 5), 0);
    assert!(!acks.is_empty());
    assert!(acks.is_acked(&Ip::V4(10, 42, 0, 5)));
    assert!(!acks.is_acked(&Ip::V4(10, 42, 0, 6)));
    acks.accept(mac(2), Ip::V4(10, 42, 0, 5), 1);
    let gone = acks.reap(&parse_station_macs(""), 1 + GRACE);
    assert_eq!(gone.len(), 1);
    assert!(acks.is_empty());
}

#[test]
fn a_release_lasts_while_the_device_is_there() {
    let mut acks = Acks::new();
    acks.accept(mac(1), Ip::V4(10, 42, 0, 5), 0);
    acks.accept(mac(2), Ip::V4(10, 42, 0, 6), 0);
    acks.accept(None, Ip::V4(10, 42, 0, 7), 0);
    for round in 1..5u64 {
        let gone = acks.reap(&parse_station_macs(&dump(1)), round * (GRACE - 1));
        if round == 2 {
            let texts: Vec<String> = gone.iter().map(|ip| ip.text()).collect();
            assert_eq!(texts, ["10.42.0.6", "10.42.0.7"]);
        } else {
            assert!(gone.is_empty());
        }
    }
    assert!(acks.is_acked(&Ip::V4(10, 42, 0, 5)));
    assert!(!acks.is_acked(&Ip::V4(10, 42, 0, 6)));
    assert!(!acks.is_acked(&Ip::V4(10, 42, 0, 7)));
}

#[test]
fn the_grace_is_ninety_seconds() {
    assert_eq!(GRACE, 90_000_000_000);
    let mut acks = Acks::new();
    acks.accept(mac(1), Ip::V4(1, 2, 3, 4), 7);
    assert!(acks.reap(&parse_station_macs(""), 7 + GRACE - 1).is_empty());
    assert_eq!(acks.reap(&parse_station_macs(""), 7 + GRACE).len(), 1);
}

#[test]
fn a_round_that_cannot_ask_expires_nobody_and_says_so_once() {
    let mut acks = Acks::new();
    let mut reaper = Reaper::new();
    acks.accept(mac(1), Ip::V4(10, 42, 0, 5), 0);
    assert!(associated(false, "").is_none());
    let first = reaper.round(&mut acks, &None, 100 * GRACE);
    assert!(first.say && first.expired.is_empty());
    let second = reaper.round(&mut acks, &None, 101 * GRACE);
    assert!(!second.say && second.expired.is_empty());
    assert!(acks.is_acked(&Ip::V4(10, 42, 0, 5)));
    let third = reaper.round(&mut acks, &associated(true, ""), 102 * GRACE);
    assert_eq!(third.expired.len(), 1);
    assert!(!third.say);
    assert!(!reaper.round(&mut acks, &None, 103 * GRACE).say);
    acks.accept(mac(1), Ip::V4(10, 42, 0, 5), 103 * GRACE);
    assert!(reaper.round(&mut acks, &None, 104 * GRACE).say);
    assert!(!reaper.round(&mut acks, &None, 105 * GRACE).say);
}

#[test]
fn only_ipv4_reaches_the_packet_filter() {
    assert_eq!(
        nft_acked("add", &Ip::V4(10, 42, 0, 5)).unwrap(),
        ["add", "element", "ip", "hub-captive", "acked", "{ 10.42.0.5 }"]
    );
    assert_eq!(nft_acked("delete", &Ip::V6("::1".to_string())), None);
}

#[test]
fn the_hub_knows_its_own_names() {
    for own in [
        "10.42.0.1", "hub.local", "hub", "localhost", "127.0.0.1:8000", "10.55.0.1", "[::1]:8000",
        "hub:8000", "anything",
    ] {
        assert!(!foreign_host(&format!("GET / HTTP/1.1\r\nHost: {own}\r\n\r\n")), "{own}");
    }
    for other in ["captive.apple.com", "connectivitycheck.gstatic.com:80", "10.42.0.10", ""] {
        assert!(foreign_host(&format!("GET / HTTP/1.1\r\nhOST: {other}\r\n\r\n")), "{other}");
    }
    assert!(!foreign_host("GET / HTTP/1.0\r\n\r\n"));
}
