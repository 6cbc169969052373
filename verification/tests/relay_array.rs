//! Tests for the relay array state machine: handshake retries, fetching,
//! local updates, and the composite push operation.

use smart_relay::{
    ChannelError, LinkState, ProtocolError, RelayArray, RelayError, RelayState, ScriptedChannel,
};

fn array_with_script(reads: Vec<Option<Vec<u8>>>) -> RelayArray<ScriptedChannel> {
    RelayArray::new(ScriptedChannel::new(reads))
}

/// A board that answers the handshake probe, then plays `reads`.
fn ready_array(mut reads: Vec<Option<Vec<u8>>>) -> RelayArray<ScriptedChannel> {
    reads.insert(0, Some(b"ok".to_vec()));
    let mut arr = array_with_script(reads);
    arr.say_handshake().unwrap();
    assert_eq!(arr.link_state(), LinkState::Ready);
    arr
}

#[test]
fn new_array_is_disconnected_and_all_off() {
    let arr = array_with_script(vec![]);
    assert_eq!(arr.link_state(), LinkState::Disconnected);
    assert_eq!(arr.serialize_local_state(), "0");
}

#[test]
fn handshake_succeeds_first_try() {
    let mut arr = array_with_script(vec![Some(b"ok".to_vec())]);
    assert_eq!(arr.say_handshake(), Ok(()));
    assert_eq!(arr.link_state(), LinkState::Ready);
}

#[test]
fn handshake_retries_once_after_a_timeout() {
    let mut arr = array_with_script(vec![None, Some(b"ok".to_vec())]);
    assert_eq!(arr.say_handshake(), Ok(()));
    assert_eq!(arr.link_state(), LinkState::Ready);
}

#[test]
fn handshake_gives_up_after_two_timeouts() {
    let mut arr = array_with_script(vec![None, None]);
    assert!(arr.say_handshake().is_err());
    assert_eq!(arr.link_state(), LinkState::Unreachable);
}

#[test]
fn fetch_replaces_the_whole_snapshot() {
    let mut arr = ready_array(vec![Some(b"relay:a5".to_vec())]);
    assert_eq!(arr.fetch_state_from_remote(), Ok(()));
    assert_eq!(arr.serialize_local_state(), "a5");
}

#[test]
fn fetch_twice_without_push_is_idempotent() {
    let response = b"relay:1f2".to_vec();
    let mut arr = ready_array(vec![Some(response.clone()), Some(response)]);
    assert_eq!(arr.fetch_state_from_remote(), Ok(()));
    let first = arr.serialize_local_state();
    assert_eq!(arr.fetch_state_from_remote(), Ok(()));
    let second = arr.serialize_local_state();
    assert_eq!(first, second);
    assert_eq!(first, "1f2");
}

#[test]
fn fetch_timeout_keeps_the_previous_snapshot() {
    let mut arr = ready_array(vec![Some(b"r:3".to_vec()), None]);
    arr.fetch_state_from_remote().unwrap();
    assert_eq!(
        arr.fetch_state_from_remote(),
        Err(RelayError::Channel(ChannelError::ReadTimeout))
    );
    assert_eq!(arr.serialize_local_state(), "3");
}

#[test]
fn fetch_decode_failure_keeps_the_previous_snapshot() {
    let mut arr = ready_array(vec![Some(b"r:3".to_vec()), Some(b"garbage".to_vec())]);
    arr.fetch_state_from_remote().unwrap();
    assert_eq!(
        arr.fetch_state_from_remote(),
        Err(RelayError::Protocol(ProtocolError::MalformedFrame))
    );
    assert_eq!(arr.serialize_local_state(), "3");
}

#[test]
fn update_reports_each_touched_relay() {
    let mut arr = array_with_script(vec![]);
    let report = arr.update_local_state(&vec![1, 2], RelayState::On);
    assert_eq!(report, Some("1 is ON\n2 is ON\n".to_string()));
    assert_eq!(arr.serialize_local_state(), "3");
    let report = arr.update_local_state(&vec![1], RelayState::Off);
    assert_eq!(report, Some("1 is OFF\n".to_string()));
    assert_eq!(arr.serialize_local_state(), "2");
}

#[test]
fn update_with_unknown_relay_reports_failure() {
    let mut arr = array_with_script(vec![]);
    assert_eq!(arr.update_local_state(&vec![2, 19], RelayState::On), None);
    // the id before the unknown one is already written
    assert_eq!(arr.serialize_local_state(), "2");
}

#[test]
fn export_renders_an_ini_block() {
    let mut arr = array_with_script(vec![]);
    arr.update_local_state(&vec![1, 3], RelayState::On);
    assert_eq!(
        arr.export_local_state(&vec![1, 2, 3]),
        "; Test ini comment\n[RELAYS]\n1=ON\n2=OFF\n3=ON\n"
    );
}

#[test]
fn export_marks_unknown_relays() {
    let arr = array_with_script(vec![]);
    assert_eq!(
        arr.export_local_state(&vec![18, 19]),
        "; Test ini comment\n[RELAYS]\n18=OFF\n19=ERR\n"
    );
}

#[test]
fn push_preserves_untouched_relays() {
    // the board currently reports relay 3 on (bitmask 0b100 = 4)
    let mut arr = ready_array(vec![Some(b"relay:4".to_vec())]);
    assert_eq!(arr.push_state_to_remote(&vec![1, 2], RelayState::On), Ok(()));
    // the transmitted mask must cover {1, 2, 3} and nothing else
    let writes = arr.serial_interface.written().clone();
    assert_eq!(writes.last().unwrap(), &b"set 7\r\n".to_vec());
    assert_eq!(arr.serialize_local_state(), "7");
}

#[test]
fn push_can_release_relays() {
    // the board reports {1, 2, 3} on; releasing {2} must keep {1, 3}
    let mut arr = ready_array(vec![Some(b"relay:7".to_vec())]);
    assert_eq!(arr.push_state_to_remote(&vec![2], RelayState::Off), Ok(()));
    let writes = arr.serial_interface.written().clone();
    assert_eq!(writes.last().unwrap(), &b"set 5\r\n".to_vec());
}

#[test]
fn push_with_unknown_relay_fails_before_transmitting() {
    let mut arr = ready_array(vec![Some(b"relay:4".to_vec())]);
    assert_eq!(
        arr.push_state_to_remote(&vec![1, 42], RelayState::On),
        Err(RelayError::RelayNotFound)
    );
    // nothing after the handshake probe and the get command went out
    let writes = arr.serial_interface.written().clone();
    assert_eq!(writes.len(), 2);
    assert_eq!(writes.last().unwrap(), &b"get\r\n".to_vec());
    // the id before the unknown one is already written onto the fetched
    // snapshot: {3} from the board plus {1} makes 0b101
    assert_eq!(arr.serialize_local_state(), "5");
}

#[test]
fn push_reports_divergence_when_the_final_write_fails() {
    // two writes succeed (handshake probe, get command); the set frame fails
    let ch = ScriptedChannel::with_write_budget(
        vec![Some(b"ok".to_vec()), Some(b"relay:4".to_vec())],
        2,
    );
    let mut arr = RelayArray::new(ch);
    arr.say_handshake().unwrap();
    assert_eq!(
        arr.push_state_to_remote(&vec![1], RelayState::On),
        Err(RelayError::Channel(ChannelError::WriteFailed))
    );
    // the snapshot keeps the applied update while the board was never
    // commanded: a reported divergence
    assert_eq!(arr.serialize_local_state(), "5");
    assert_eq!(arr.serial_interface.written().len(), 2);
}

#[test]
fn push_aborts_when_the_fetch_times_out() {
    let mut arr = ready_array(vec![None]);
    assert_eq!(
        arr.push_state_to_remote(&vec![1], RelayState::On),
        Err(RelayError::Channel(ChannelError::ReadTimeout))
    );
    assert_eq!(arr.serialize_local_state(), "0");
}

#[test]
fn query_reads_states_in_range_order() {
    let mut arr = array_with_script(vec![]);
    arr.update_local_state(&vec![2], RelayState::On);
    assert_eq!(
        arr.query_local_state(&vec![2, 1, 42]),
        vec![Some(RelayState::On), Some(RelayState::Off), None]
    );
}

#[test]
fn defensive_lookup_answers_none_outside_the_domain() {
    let arr = array_with_script(vec![]);
    assert_eq!(arr.state.state_of(0), None);
    assert_eq!(arr.state.state_of(19), None);
    assert_eq!(arr.state.state_of(1), Some(RelayState::Off));
}
