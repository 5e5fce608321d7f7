use hub::improv::{
    checksum, cmd, encode_result, parse_command, scan_triplet, Command, ErrorState, ParseError,
    State,
};

#[test]
fn checksum_is_low_byte_sum() {
    assert_eq!(checksum(&[0x01, 0xFF]), 0x00); // wraps
    assert_eq!(checksum(&[0x04, 0x00]), 0x04);
}

#[test]
fn parses_scan_command() {
    // 04 00 CS  → checksum = 0x04
    let pkt = [0x04, 0x00, 0x04];
    assert_eq!(parse_command(&pkt), Ok(Command::Scan));
}

#[test]
fn parses_send_wifi() {
    // ssid="hi" (2), pass="pw" (2): data = [02 'h' 'i' 02 'p' 'w'] (6 bytes)
    let mut pkt = vec![cmd::SEND_WIFI, 6, 2, b'h', b'i', 2, b'p', b'w'];
    pkt.push(checksum(&pkt));
    assert_eq!(
        parse_command(&pkt),
        Ok(Command::SendWifi { ssid: "hi".into(), password: "pw".into() })
    );
}

#[test]
fn open_network_empty_password() {
    let mut pkt = vec![cmd::SEND_WIFI, 4, 2, b'h', b'i', 0];
    pkt.push(checksum(&pkt));
    assert_eq!(
        parse_command(&pkt),
        Ok(Command::SendWifi { ssid: "hi".into(), password: String::new() })
    );
}

fn wifi_packet(ssid: &[u8], pass: &[u8]) -> Vec<u8> {
    let mut data = vec![ssid.len() as u8];
    data.extend_from_slice(ssid);
    data.push(pass.len() as u8);
    data.extend_from_slice(pass);
    let mut pkt = vec![cmd::SEND_WIFI, data.len() as u8];
    pkt.extend_from_slice(&data);
    pkt.push(checksum(&pkt));
    pkt
}

#[test]
fn rejects_flag_smuggling_ssid() {
    // SSID "-x" could be read as an nmcli flag — never let it through.
    assert_eq!(parse_command(&wifi_packet(b"-x", b"")), Err(ParseError::Invalid));
}

#[test]
fn rejects_control_chars_in_credentials() {
    assert_eq!(parse_command(&wifi_packet(b"net\nx", b"")), Err(ParseError::Invalid));
    assert_eq!(parse_command(&wifi_packet(b"net", b"pa\0ss")), Err(ParseError::Invalid));
}

#[test]
fn rejects_oversized_ssid() {
    assert_eq!(parse_command(&wifi_packet(&[b'a'; 33], b"")), Err(ParseError::Invalid));
}

#[test]
fn accepts_normal_credentials() {
    assert_eq!(
        parse_command(&wifi_packet(b"Classroom", b"s3cret-pw")),
        Ok(Command::SendWifi { ssid: "Classroom".into(), password: "s3cret-pw".into() })
    );
}

#[test]
fn rejects_bad_checksum() {
    assert_eq!(parse_command(&[0x04, 0x00, 0xFF]), Err(ParseError::Invalid));
}

#[test]
fn rejects_length_mismatch() {
    // declares 5 data bytes but only 1 present
    assert_eq!(parse_command(&[cmd::SEND_WIFI, 5, 0x00, 0x00]), Err(ParseError::Invalid));
}

#[test]
fn rejects_truncated_ssid() {
    // ssid_len=9 but no bytes follow
    let mut pkt = vec![cmd::SEND_WIFI, 1, 9];
    pkt.push(checksum(&pkt));
    assert_eq!(parse_command(&pkt), Err(ParseError::Invalid));
}

#[test]
fn unknown_command_distinguished() {
    let mut pkt = vec![0x06, 0x00];
    pkt.push(checksum(&pkt));
    assert_eq!(parse_command(&pkt), Err(ParseError::UnknownCommand));
}

#[test]
fn result_roundtrip_framing() {
    // empty scan result: [04][00][checksum]
    assert_eq!(encode_result(cmd::SCAN_WIFI, &[]), vec![0x04, 0x00, 0x04]);
    // one string "ok": [03][03][02 'o' 'k'][cs]
    let r = encode_result(cmd::DEVICE_INFO, &["ok".to_string()]);
    assert_eq!(&r[..5], &[0x03, 0x03, 0x02, b'o', b'k']);
    assert_eq!(*r.last().unwrap(), checksum(&r[..r.len() - 1]));
}

#[test]
fn every_rejection_shows_its_error() {
    assert_eq!(ParseError::Invalid.error_state(), ErrorState::InvalidRpcPacket);
    assert_eq!(ParseError::UnknownCommand.error_state(), ErrorState::UnknownRpcCommand);
    assert_eq!(ErrorState::NoError.byte(), 0x00);
    assert_eq!(ErrorState::InvalidRpcPacket.byte(), 0x01);
    assert_eq!(ErrorState::UnknownRpcCommand.byte(), 0x02);
    assert_eq!(ErrorState::UnableToConnect.byte(), 0x03);
    assert_eq!(State::Authorized.byte(), 0x02);
    assert_eq!(State::Provisioned.byte(), 0x04);
}

#[test]
fn a_scan_result_has_three_strings() {
    let t = scan_triplet("room 5", -55, "WPA2");
    assert_eq!(t, ["room 5".to_string(), "-55".to_string(), "WPA2".to_string()]);
    let r = encode_result(cmd::SCAN_WIFI, &t);
    assert_eq!(r[0], 0x04);
    assert_eq!(r[1], 16);
    assert_eq!(&r[2..9], b"\x06room 5");
    assert_eq!(&r[9..13], b"\x03-55");
    assert_eq!(&r[13..18], b"\x04WPA2");
}

#[test]
fn the_other_commands_are_understood() {
    assert_eq!(parse_command(&[0x03, 0x00, 0x03]), Ok(Command::DeviceInfo));
    assert_eq!(parse_command(&[0x02, 0x00, 0x02]), Ok(Command::Identify));
    assert_eq!(parse_command(&[0x02, 0x00]), Err(ParseError::Invalid));
    assert_eq!(parse_command(&[]), Err(ParseError::Invalid));
}

#[test]
fn one_flipped_byte_is_noticed() {
    let good = wifi_packet(b"net", b"pw");
    for i in 0..good.len() {
        let mut bad = good.clone();
        bad[i] ^= 0x40;
        assert_ne!(
            parse_command(&bad),
            Ok(Command::SendWifi { ssid: "net".into(), password: "pw".into() })
        );
    }
}

#[test]
fn names_of_exactly_the_limit_pass_and_bad_utf8_does_not() {
    let long = [b'a'; 32];
    assert_eq!(
        parse_command(&wifi_packet(&long, b"")),
        Ok(Command::SendWifi { ssid: "a".repeat(32), password: String::new() })
    );
    assert_eq!(parse_command(&wifi_packet(b"\xff\xfe", b"")), Err(ParseError::Invalid));
    assert_eq!(parse_command(&wifi_packet(b"", b"")), Err(ParseError::Invalid));
}
