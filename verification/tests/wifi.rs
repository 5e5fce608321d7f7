use hub::wifi::{
    ap_ssid, ask_mode, ask_pin, ask_ssid, check_ssid, connect, forget, is_ap_profile, map_auth,
    outcome, outcome_reply, pick, scan, scan_text, split_nmcli, uplink_device, uplink_ssid,
    wifi_connect_json, wireless, Forget, Join, Ran, Row,
};

#[test]
fn rows_are_split_at_unescaped_colons() {
    assert_eq!(split_nmcli("a:b:c"), ["a", "b", "c"]);
    assert_eq!(split_nmcli(r"my\:net:80:WPA2"), ["my:net", "80", "WPA2"]);
    assert_eq!(split_nmcli(r"back\\slash:"), [r"back\slash", ""]);
    assert_eq!(split_nmcli(""), [""]);
    assert_eq!(split_nmcli("a\\"), ["a"]);
}

#[test]
fn security_is_told_by_the_strongest() {
    for (sec, token) in [
        ("WPA2 WPA3", "WPA3"),
        ("WPA1 WPA2", "WPA2"),
        ("wpa1", "WPA"),
        ("WEP", "WEP"),
        ("", "NO"),
        ("--", "NO"),
    ] {
        assert_eq!(map_auth(sec), token, "{sec}");
    }
}

#[test]
fn networks_are_listed_once() {
    let nets = scan_text("Room:70:WPA2\n:90:WPA2\nRoom:99:WPA3\nshort:1\nCafe\\:x:bad:\nNeg:-3:wep\n");
    let rows: Vec<(String, i32, String)> =
        nets.into_iter().map(|n| (n.ssid, n.signal, n.security)).collect();
    let row = |s: &str, n: i32, t: &str| (s.to_string(), n, t.to_string());
    assert_eq!(rows, [row("Room", 70, "WPA2"), row("Cafe:x", 0, "NO"), row("Neg", -3, "WEP")]);
    assert!(scan(&None).is_empty());
    assert_eq!(scan(&Some(b"\xff:5:\n".to_vec()))[0].ssid, "\u{fffd}");
}

const ACTIVE: &str = "hub-ap:802-11-wireless:wlan0\nvenue:802-11-wireless:wlan1\nwired:802-3-ethernet:eth0\nshort:802-11-wireless\n";

fn names(rows: &[Row]) -> Vec<String> {
    rows.iter().map(|r| r.name.clone()).collect()
}

fn texts(l: &[&str]) -> Vec<String> {
    l.iter().map(|s| s.to_string()).collect()
}

#[test]
fn profiles_are_told_apart_by_their_mode() {
    let active = wireless(ACTIVE, 3);
    assert_eq!(names(&active), ["hub-ap", "venue"]);
    assert_eq!(active[1].device, "wlan1");
    assert_eq!(names(&wireless(ACTIVE, 2)), ["hub-ap", "venue", "short"]);
    assert!(is_ap_profile(" ap\n"));
    assert!(!is_ap_profile("infrastructure"));
    let modes = texts(&["ap\n", "infrastructure\n"]);
    assert_eq!(names(&pick(&active, &modes, true)), ["hub-ap"]);
    assert_eq!(names(&pick(&active, &modes, false)), ["venue"]);
    assert_eq!(names(&pick(&active, &Vec::new(), false)), ["hub-ap", "venue"]);
}

#[test]
fn questions_name_the_profile() {
    assert_eq!(ask_mode("x"), ["-g", "802-11-wireless.mode", "connection", "show", "x"]);
    assert_eq!(ask_ssid("x"), ["-g", "802-11-wireless.ssid", "connection", "show", "x"]);
    assert_eq!(ask_pin("x"), ["-g", "connection.interface-name", "connection", "show", "x"]);
    assert_eq!(ap_ssid("hub-a2f5\n"), "hub-a2f5");
    assert_eq!(uplink_ssid(&texts(&["\n", " venue \n", "x"])).as_deref(), Some("venue"));
    assert_eq!(uplink_ssid(&texts(&["\n"])), None);
}

#[test]
fn the_uplink_never_takes_the_access_points_radio() {
    let aps = pick(&wireless(ACTIVE, 3), &texts(&["ap"]), true);
    let devices = "wlan0:wifi\nwlan1:wifi\neth0:ethernet\n";
    assert_eq!(uplink_device(&aps, &texts(&["wlan0\n"]), devices).as_deref(), Some("wlan1"));
    assert_eq!(uplink_device(&aps, &Vec::new(), devices).as_deref(), Some("wlan1"));
    assert_eq!(uplink_device(&Vec::new(), &texts(&["wlan0\n", "\n"]), devices).as_deref(), Some("wlan1"));
    assert_eq!(uplink_device(&aps, &Vec::new(), "wlan0:wifi\neth0:ethernet\n"), None);
    assert_eq!(uplink_device(&Vec::new(), &Vec::new(), devices).as_deref(), Some("wlan0"));
}

#[test]
fn networks_that_nmcli_would_misread_are_refused() {
    assert_eq!(check_ssid(""), Err("pick a network".to_string()));
    assert_eq!(
        check_ssid(&"é".repeat(17)),
        Err("network name too long (max 32 characters)".to_string())
    );
    for word in ["-x", "password", "ifname", "bssid", "hidden", "name", "private", "wep-key-type"] {
        assert_eq!(
            check_ssid(word),
            Err(format!("can't join a network named \"{word}\" from here — connect it manually"))
        );
    }
    assert_eq!(check_ssid(&"é".repeat(16)), Ok(()));
    assert_eq!(check_ssid("passwords"), Ok(()));
}

#[test]
fn joins_are_pinned_to_the_radio() {
    let dev = Some("wlan1".to_string());
    assert_eq!(
        connect("venue", "pw", &dev).unwrap(),
        ["device", "wifi", "connect", "venue", "ifname", "wlan1", "password", "pw"]
    );
    assert_eq!(
        connect("venue", "", &dev).unwrap(),
        ["device", "wifi", "connect", "venue", "ifname", "wlan1"]
    );
    assert_eq!(
        connect("venue", "pw", &None),
        Err("no spare Wi-Fi radio — the only one carries the classroom AP".to_string())
    );
    assert_eq!(connect("", "pw", &None), Err("pick a network".to_string()));
}

fn exit(success: bool, said: &str) -> Ran {
    Ran::Exit { success, stderr: said.as_bytes().to_vec() }
}

#[test]
fn what_went_wrong_is_shown_as_it_is() {
    assert_eq!(outcome(&exit(true, "noise")), Ok(()));
    assert_eq!(outcome(&exit(false, " Error: no network \n")), Err("Error: no network".to_string()));
    assert_eq!(outcome(&Ran::NotRun("no nmcli".to_string())), Err("no nmcli".to_string()));
    assert_eq!(outcome_reply(&Ok(())).2, r#"{"ok":true}"#);
    assert_eq!(outcome_reply(&Err("a\"b".to_string())).2, r#"{"error":"a\"b","ok":false}"#);
}

#[test]
fn a_join_needs_a_network() {
    for body in ["", "{}", r#"{"ssid":""}"#, r#"{"ssid":7}"#, "[1]"] {
        match wifi_connect_json(body) {
            Join::Answer((status, ctype, text)) => {
                assert_eq!(status, "400 Bad Request");
                assert_eq!(ctype, "application/json");
                assert_eq!(text, r#"{"ok":false,"error":"missing ssid"}"#);
            }
            Join::Try { .. } => panic!("tries {body}"),
        }
    }
    match wifi_connect_json(r#"{"ssid":"café","password":"p"}"#) {
        Join::Try { ssid, password } => {
            assert_eq!((ssid.as_str(), password.as_str()), ("café", "p"));
        }
        Join::Answer(_) => panic!("answers"),
    }
}

#[test]
fn forgetting_deletes_one_after_the_other() {
    let profiles = wireless("hub-ap:802-11-wireless\nvenue:802-11-wireless\nhome:802-11-wireless\n", 2);
    let stations = pick(&profiles, &texts(&["ap", "infrastructure", ""]), false);
    let next = |ran: &Vec<Ran>| match forget(&stations, ran) {
        Forget::Delete(args) => Ok(args),
        Forget::Done(r) => Err(r),
    };
    assert_eq!(next(&vec![]).unwrap(), ["connection", "delete", "venue"]);
    assert_eq!(next(&vec![exit(true, "")]).unwrap(), ["connection", "delete", "home"]);
    assert_eq!(next(&vec![exit(true, ""), exit(true, "")]), Err(Ok(())));
    assert_eq!(next(&vec![exit(false, "denied\n")]), Err(Err("denied".to_string())));
    match forget(&Vec::new(), &Vec::new()) {
        Forget::Done(r) => assert_eq!(r, Err("no stored uplink to forget".to_string())),
        Forget::Delete(_) => panic!("deletes"),
    }
}
