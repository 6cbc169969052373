//! Tests for the wire protocol codec: bitmask encoding, command frames,
//! and decoding of raw board responses.

use smart_relay::{
    decode_state_response, encode_bitmask, encode_get_command, encode_set_command, ByteChannel,
    ProtocolError, RelayState, RelayStateSnapshot, ScriptedChannel,
};

fn snapshot_with_on(ids: &[u8]) -> RelayStateSnapshot {
    let mut snap = RelayStateSnapshot::all_off();
    for &id in ids {
        snap.states[(id - 1) as usize] = RelayState::On;
    }
    snap
}

#[test]
fn get_command_is_fixed() {
    assert_eq!(encode_get_command(), b"get\r\n".to_vec());
}

#[test]
fn relays_one_and_three_encode_to_five() {
    let snap = snapshot_with_on(&[1, 3]);
    assert_eq!(encode_bitmask(&snap), 0b101);
    assert_eq!(encode_set_command(&snap), b"set 5\r\n".to_vec());
}

#[test]
fn all_off_encodes_to_zero() {
    let snap = RelayStateSnapshot::all_off();
    assert_eq!(encode_bitmask(&snap), 0);
    assert_eq!(encode_set_command(&snap), b"set 0\r\n".to_vec());
}

#[test]
fn all_on_encodes_to_eighteen_set_bits() {
    let ids: Vec<u8> = (1..=18).collect();
    let snap = snapshot_with_on(&ids);
    assert_eq!(encode_bitmask(&snap), 0x3ffff);
    assert_eq!(encode_set_command(&snap), b"set 3ffff\r\n".to_vec());
}

#[test]
fn decode_reads_hex_after_the_colon() {
    let snap = decode_state_response(&b"relay:5".to_vec()).unwrap();
    assert_eq!(snap.state_of(1), Some(RelayState::On));
    assert_eq!(snap.state_of(2), Some(RelayState::Off));
    assert_eq!(snap.state_of(3), Some(RelayState::On));
    for id in 4..=18 {
        assert_eq!(snap.state_of(id), Some(RelayState::Off));
    }
}

#[test]
fn decode_accepts_uppercase_hex() {
    let snap = decode_state_response(&b"r:A5".to_vec()).unwrap();
    assert_eq!(encode_bitmask(&snap), 0xa5);
}

#[test]
fn round_trip_reproduces_the_snapshot() {
    let snap = snapshot_with_on(&[2, 5, 11, 18]);
    let mask = encode_bitmask(&snap);
    let mut response = b"state:".to_vec();
    response.extend_from_slice(format!("{:x}", mask).as_bytes());
    let decoded = decode_state_response(&response).unwrap();
    assert_eq!(decoded.states, snap.states);
}

#[test]
fn noise_outside_the_window_is_ignored() {
    // the same frame as "r:5", interleaved with bytes outside [48, 128]
    let noisy = vec![2u8, 255, b'r', 7, b':', 0, b'5', 200, 13, 10];
    let clean = decode_state_response(&b"r:5".to_vec()).unwrap();
    let decoded = decode_state_response(&noisy).unwrap();
    assert_eq!(decoded.states, clean.states);
}

#[test]
fn bytes_without_ascii_reading_are_not_ascii() {
    assert_eq!(
        decode_state_response(&vec![b'a', b':', 127]),
        Err(ProtocolError::NotAscii)
    );
    assert_eq!(
        decode_state_response(&vec![b'a', b':', 128]),
        Err(ProtocolError::NotAscii)
    );
}

#[test]
fn missing_colon_is_a_malformed_frame() {
    assert_eq!(
        decode_state_response(&b"abc123".to_vec()),
        Err(ProtocolError::MalformedFrame)
    );
    assert_eq!(
        decode_state_response(&Vec::new()),
        Err(ProtocolError::MalformedFrame)
    );
}

#[test]
fn bad_hex_payloads_are_rejected() {
    // empty payload
    assert_eq!(
        decode_state_response(&b"tag:".to_vec()),
        Err(ProtocolError::BadHexPayload)
    );
    // non-hex characters
    assert_eq!(
        decode_state_response(&b"tag:zz".to_vec()),
        Err(ProtocolError::BadHexPayload)
    );
    // too wide for the 32-bit bitmask
    assert_eq!(
        decode_state_response(&b"tag:fffffffff".to_vec()),
        Err(ProtocolError::BadHexPayload)
    );
    // a second delimiter makes the payload non-hex
    assert_eq!(
        decode_state_response(&b"tag:5:7".to_vec()),
        Err(ProtocolError::BadHexPayload)
    );
}

#[test]
fn widest_payload_that_fits_decodes() {
    let snap = decode_state_response(&b"m:ffffffff".to_vec()).unwrap();
    assert_eq!(encode_bitmask(&snap), 0x3ffff);
}

#[test]
fn scripted_channel_replays_and_records() {
    let mut ch = ScriptedChannel::new(vec![Some(b"r:1".to_vec()), None]);
    assert!(ch.write_data(b"get\r\n").is_ok());
    let mut buf = vec![0u8; 26];
    assert!(ch.read_data(&mut buf).is_ok());
    assert_eq!(buf, b"r:1".to_vec());
    assert!(ch.read_data(&mut buf).is_err());
    assert_eq!(ch.written(), &vec![b"get\r\n".to_vec()]);
}
