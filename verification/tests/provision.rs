use hub::improv::{cmd, encode_result, ErrorState, State, CHAR_RPC_RESULT, SERVICE_UUID};
use hub::provision::{
    describe, device_info, device_name, do_join, do_scan, find_legs, handle_command, hub_info_json,
    hub_questions, joining, profile_ssid, read_from, rssi, start_legacy_advert, told, uuid, Legs,
    Work,
};
use hub::wifi::{wireless, Net};
use hub::{SetLedRequest, SetLedResponse};

#[test]
fn identifiers_have_their_numbers() {
    assert_eq!(uuid(SERVICE_UUID), Some(0x00467768_6228_2272_4663_277478268000));
    assert_eq!(uuid(CHAR_RPC_RESULT), Some(0x00467768_6228_2272_4663_277478268004));
    assert_eq!(uuid("00467768622822724663277478268000"), uuid(SERVICE_UUID));
    assert_eq!(uuid("no uuid"), None);
    assert_eq!(
        uuid(SERVICE_UUID),
        uuid::Uuid::parse_str(SERVICE_UUID).ok().map(|u| u.as_u128())
    );
}

#[test]
fn commands_set_off_their_work() {
    let work = |value: &[u8]| {
        let (cleared, work) = handle_command(value);
        assert!(cleared == ErrorState::NoError);
        work
    };
    assert!(matches!(work(&[4, 0, 4]), Work::Scan));
    assert!(matches!(work(&[3, 0, 3]), Work::Describe));
    assert!(matches!(work(&[2, 0, 2]), Work::Acknowledge));
    assert!(matches!(work(&[6, 0, 6]), Work::Fail(ErrorState::UnknownRpcCommand)));
    assert!(matches!(work(&[4, 0, 5]), Work::Fail(ErrorState::InvalidRpcPacket)));
    match work(&[1, 4, 2, b'h', b'i', 0, 0xd8]) {
        Work::Join { ssid, password } => assert_eq!((ssid.as_str(), password.as_str()), ("hi", "")),
        _ => panic!("no join"),
    }
}

#[test]
fn signals_become_dbm() {
    for s in [0, 1, 50, 99, 100, -1, -3, i32::MIN, i32::MAX] {
        assert_eq!(rssi(s), s / 2 - 100);
    }
}

#[test]
fn a_scan_is_answered_frame_by_frame() {
    let nets = vec![Net { ssid: "a".to_string(), signal: 90, security: "NO".to_string() }];
    let frames = do_scan(&nets);
    assert_eq!(frames.len(), 2);
    let triplet = ["a".to_string(), "-55".to_string(), "NO".to_string()];
    assert_eq!(frames[0], encode_result(cmd::SCAN_WIFI, &triplet));
    assert_eq!(frames[1], [0x04, 0x00, 0x04]);
}

#[test]
fn a_join_ends_in_a_state() {
    assert!(joining() == State::Provisioning);
    let good = do_join(true);
    assert!(good.state == State::Provisioned && good.error.is_none());
    assert_eq!(good.result, Some(vec![0x01, 0x00, 0x01]));
    let bad = do_join(false);
    assert!(bad.state == State::Authorized && bad.result.is_none());
    assert!(bad.error == Some(ErrorState::UnableToConnect));
}

#[test]
fn the_advertisement_carries_the_name() {
    assert_eq!(
        start_legacy_advert("hub-A2F5"),
        ["add-adv", "-c", "-g", "-u", SERVICE_UUID, "-s", "09096875622d41324635", "1"]
    );
}

#[test]
fn the_hub_is_named_by_its_access_point_or_its_serial() {
    let none: Vec<String> = Vec::new();
    let info = Some("processor\t: 0\nSerial\t\t: 10000000abcdef12\nSerial: x\n".to_string());
    assert_eq!(device_name(&vec!["\n".to_string(), "hub-a2f5\n".to_string()], &info), "hub-a2f5");
    assert_eq!(device_name(&none, &info), "hub-EF12");
    assert_eq!(device_name(&none, &Some("Serial : 7\n".to_string())), "hub-7");
    assert_eq!(device_name(&none, &Some("no number\n".to_string())), "hub-0000");
    assert_eq!(device_name(&none, &None), "hub-0000");
}

#[test]
fn the_device_tells_what_it_is() {
    assert_eq!(device_info("0.1.0", "hub-EF12"), ["hub", "0.1.0", "Raspberry Pi", "hub-EF12"]);
    assert_eq!(
        describe("0.1.0", "n"),
        encode_result(cmd::DEVICE_INFO, &device_info("0.1.0", "n"))
    );
    assert_eq!(profile_ssid(" x\n").as_deref(), Some("x"));
    assert_eq!(profile_ssid("\n"), None);
}

fn legs(active: &str, modes: &[&str]) -> Legs {
    let modes: Vec<String> = modes.iter().map(|m| m.to_string()).collect();
    find_legs(&wireless(active, 3), &modes)
}

fn answers(l: &[&str]) -> Vec<String> {
    l.iter().map(|s| s.to_string()).collect()
}

const BOTH: &str =
    "v:802-11-wireless:wlan1\nhub-ap:802-11-wireless:wlan0\nw:802-11-wireless:wlan2\n";

#[test]
fn the_hub_tells_how_to_join_it() {
    let hubd = Some(b"active\n".to_vec());
    let both = legs(BOTH, &["infrastructure", "ap\n", "infrastructure"]);
    assert_eq!(both.ap.as_ref().unwrap().device, "wlan0");
    assert_eq!(both.sta.as_ref().unwrap().name, "v");
    let info = |l: &Legs, a: &[&str], h: &Option<Vec<u8>>| {
        String::from_utf8(hub_info_json(l, &answers(a), h)).unwrap()
    };
    let said = ["venue\n", "portal\n", "10.42.0.1/24\n10.1.1.1/8\n", "hub-a2f5\n"];
    assert_eq!(
        info(&both, &said, &hubd),
        r#"{"hubd":"active","locator":"tcp/10.42.0.1:7447","mode":"ap","ssid":"hub-a2f5","uplink":{"connectivity":"portal","ssid":"venue"}}"#
    );
    let sta = legs("v:802-11-wireless:wlan1\n", &["infrastructure"]);
    assert_eq!(
        info(&sta, &["venue", "portal", "", "venue"], &hubd),
        r#"{"hubd":"active","locator":null,"mode":"sta","ssid":"venue","uplink":{"connectivity":"portal","ssid":"venue"}}"#
    );
    let ap = legs("hub-ap:802-11-wireless:wlan0\n", &["ap"]);
    assert_eq!(
        info(&ap, &["10.42.0.1/24", "\n"], &hubd),
        r#"{"hubd":"active","locator":"tcp/10.42.0.1:7447","mode":"ap","ssid":null,"uplink":null}"#
    );
    assert_eq!(
        info(&legs("", &[]), &[], &None),
        r#"{"hubd":"unknown","locator":null,"mode":"none","ssid":null,"uplink":null}"#
    );
}

#[test]
fn the_access_point_is_asked_about_and_another_leg_only_without_it() {
    let both = legs(BOTH, &["infrastructure", "ap\n", "infrastructure"]);
    assert_eq!(told(&both).unwrap().device, "wlan0");
    let show = |field: &str, kind: &str, name: &str| answers(&["-g", field, kind, "show", name]);
    let check = answers(&["networking", "connectivity", "check"]);
    assert_eq!(
        hub_questions(&both),
        [
            show("802-11-wireless.ssid", "connection", "v"),
            check.clone(),
            show("IP4.ADDRESS", "device", "wlan0"),
            show("802-11-wireless.ssid", "connection", "hub-ap"),
        ]
    );
    let sta = legs(BOTH, &[]);
    assert_eq!(told(&sta).unwrap().name, "v");
    assert_eq!(
        hub_questions(&sta),
        [
            show("802-11-wireless.ssid", "connection", "v"),
            check,
            show("IP4.ADDRESS", "device", "wlan1"),
            show("802-11-wireless.ssid", "connection", "v"),
        ]
    );
    assert!(told(&legs("", &[])).is_none());
    assert!(hub_questions(&legs("", &[])).is_empty());
}

#[test]
fn long_values_are_read_in_pieces() {
    let value = b"abcdef".to_vec();
    assert_eq!(read_from(&value, 0), b"abcdef");
    assert_eq!(read_from(&value, 4), b"ef");
    assert_eq!(read_from(&value, 6), b"");
    assert_eq!(read_from(&value, 7), b"");
}

#[test]
fn envelopes_hold_their_fields() {
    let req = SetLedRequest { method: "set_led".to_string(), on: true, red: 1, green: 2, blue: 3 };
    assert_eq!((req.red, req.green, req.blue, req.on), (1, 2, 3, true));
    let resp = SetLedResponse { status: "ok".to_string(), message: None };
    assert_eq!((resp.status.as_str(), resp.message), ("ok", None));
}
