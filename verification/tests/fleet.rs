use hub::address::Ip;
use hub::fleet::{
    choose_host, fleet_json, is_lease_file, locator, port_of, vouched_boards, wifi_status_json,
};
use hub::uplink::{judge, probe_uplink, Monitor, Uplink, PROBE_HOST, PROBE_REQUEST};

#[test]
fn replies_to_the_probe_are_judged() {
    assert!(judge("HTTP/1.1 204 No Content\r\n") == Uplink::Full);
    assert!(judge("HTTP/1.1 302 Found\r\n") == Uplink::Portal);
    assert!(judge("HTTP/1.1") == Uplink::Offline);
    assert!(probe_uplink(&None) == Uplink::Offline);
    assert!(probe_uplink(&Some(Vec::new())) == Uplink::Offline);
    assert!(probe_uplink(&Some(b"\xff 204".to_vec())) == Uplink::Full);
    assert!(PROBE_REQUEST.contains(&format!("Host: {PROBE_HOST}\r\n")));
    assert_eq!(Uplink::Unknown.word(), "unknown");
    assert_eq!(Uplink::Full.word(), "full");
    assert_eq!(Uplink::Portal.word(), "portal");
    assert_eq!(Uplink::Offline.word(), "none");
}

#[test]
fn bad_news_needs_three_probes_and_good_news_one() {
    let mut m = Monitor::new();
    assert!(m.shown() == Uplink::Unknown);
    m.observe(Uplink::Offline);
    m.observe(Uplink::Offline);
    assert!(m.shown() == Uplink::Unknown);
    m.observe(Uplink::Offline);
    assert!(m.shown() == Uplink::Offline);
    m.observe(Uplink::Full);
    assert!(m.shown() == Uplink::Full);
    m.observe(Uplink::Portal);
    m.observe(Uplink::Portal);
    m.observe(Uplink::Offline);
    m.observe(Uplink::Portal);
    m.observe(Uplink::Portal);
    assert!(m.shown() == Uplink::Full);
    m.observe(Uplink::Portal);
    assert!(m.shown() == Uplink::Portal);
}

#[test]
fn lease_files_are_known_by_name() {
    assert!(is_lease_file("dnsmasq-wlan0.leases"));
    assert!(!is_lease_file("dnsmasq-wlan0.leases~"));
    assert!(!is_lease_file("xdnsmasq-wlan0.leases"));
    assert!(is_lease_file("dnsmasq-.leases"));
}

fn boards(files: &[&str]) -> String {
    let files: Vec<String> = files.iter().map(|f| f.to_string()).collect();
    serde_json::Value::Object(vouched_boards(&files)).to_string()
}

const ROVER: &str = "1753 d4:e9:f4:0b:A3:f2 10.42.0.99 rover *\n";

#[test]
fn a_lease_vouches_for_a_board() {
    assert_eq!(boards(&[ROVER]), r#"{"rover-a3f2":"10.42.0.99"}"#);
    assert_eq!(boards(&[]), "{}");
    assert_eq!(boards(&["", "junk\n1 2\n"]), "{}");
}

#[test]
fn randomised_and_malformed_addresses_vouch_for_nobody() {
    assert_eq!(boards(&["1 16:3e:5a:1c:44:02 10.42.0.161 phone *\n"]), "{}");
    assert_eq!(boards(&["1 d4:e9:f4:0b:11 10.42.0.161 x *\n"]), "{}");
    assert_eq!(boards(&["1 zz:e9:f4:0b:11:07 10.42.0.161 x *\n"]), "{}");
    assert_eq!(boards(&["1 1d4:e9:f4:0b:11:07 10.42.0.161 x *\n"]), "{}");
}

#[test]
fn an_ambiguous_id_vouches_for_nobody() {
    let rival = "9 00:11:22:33:a3:f2 10.42.0.7 evil *\n";
    assert_eq!(boards(&[ROVER, rival]), "{}");
    assert_eq!(boards(&[rival, ROVER]), "{}");
    assert_eq!(boards(&[rival, ROVER, ROVER]), "{}");
    let other = "9 00:11:22:33:44:55 10.42.0.8 x *\n";
    assert_eq!(boards(&[rival, ROVER, other]), r#"{"rover-4455":"10.42.0.8"}"#);
}

#[test]
fn the_fleet_is_told_as_json() {
    let leases = vec![ROVER.to_string()];
    assert_eq!(
        fleet_json(
            Uplink::Portal,
            "mqtt://10.0.0.2:1883",
            "hub-a2f5",
            &Some(" pi \n".to_string()),
            &leases
        ),
        r#"{"boards":{"rover-a3f2":"10.42.0.99"},"host":"pi","locator":"mqtt://10.0.0.2:1883","ssid":"hub-a2f5","uplink":"portal"}"#
    );
    assert_eq!(
        fleet_json(Uplink::Unknown, "l", "", &None, &Vec::new()),
        r#"{"boards":{},"host":"hub","locator":"l","ssid":"","uplink":"unknown"}"#
    );
}

#[test]
fn the_wifi_status_is_told_as_json() {
    let none = serde_json::Value::Array(Vec::new());
    assert_eq!(
        wifi_status_json(Some("venue".to_string()), Uplink::Full, none),
        r#"{"ifaces":[],"ssid":"venue","uplink":"full"}"#
    );
    assert_eq!(
        wifi_status_json(None, Uplink::Offline, serde_json::Value::Null),
        r#"{"ifaces":null,"ssid":null,"uplink":"none"}"#
    );
}

#[test]
fn the_hub_is_found_at_a_card() {
    let ifs = |l: &[(&str, Ip)]| -> Vec<(String, Ip)> {
        l.iter().map(|(n, ip)| (n.to_string(), ip.copy())).collect()
    };
    let lo = ("lo", Ip::V4(127, 0, 0, 1));
    let tun = ("utun3", Ip::V4(10, 8, 0, 2));
    let odd = ("bond0", Ip::V4(10, 9, 0, 2));
    let card = ("wlan0", Ip::V4(100, 110, 1, 2));
    let local = ("eth0", Ip::V4(169, 254, 1, 2));
    let six = ("en0", Ip::V6("fe80::1".to_string()));
    let all = [lo, tun, odd, local, six, card];
    assert_eq!(choose_host(&ifs(&all)), "100.110.1.2");
    assert_eq!(choose_host(&ifs(&all[..5])), "10.9.0.2");
    assert_eq!(choose_host(&ifs(&all[..2])), "<this-machine>");
    assert_eq!(choose_host(&Vec::new()), "<this-machine>");
}

#[test]
fn the_locator_names_host_and_port() {
    assert_eq!(locator("10.0.0.2", "0.0.0.0:1883"), "mqtt://10.0.0.2:1883");
    assert_eq!(port_of("[::1]:8000"), "8000");
    assert_eq!(port_of("8000"), "8000");
}
