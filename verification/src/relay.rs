//! The in-memory relay state model: relay states, the always-complete
//! 18-entry snapshot, and (further down) the connection state machine.

use vstd::prelude::*;
use vstd::string::StringExecFns;

use crate::codec::{
    decode_spec, decode_state_response, encode_bitmask, encode_get_command, encode_set_command,
    hex_chars, hex_digit_byte, hex_string, mask_bit, mask_of, ProtocolError,
};
use crate::communication::{ByteChannel, ChannelError};

verus! {

/// Lowest legal relay id.
pub const RELAY_MIN: u8 = 1;

/// Highest legal relay id.
pub const RELAY_MAX: u8 = 18;

/// Number of relays on the board.
pub const RELAY_COUNT: usize = 18;

/// State of a single relay: energized (`On`) or released (`Off`).
#[derive(Debug, Clone, Copy, PartialEq, Eq, Structural)]
pub enum RelayState {
    On,
    Off,
}

/// The canonical in-memory record of all 18 relay states.
///
/// Invariant ([`RelayStateSnapshot::wf`]): the snapshot always covers
/// exactly the ids `1..=18`, entry `id` living at index `id - 1`.
/// It is never partial and never holds out-of-range ids.
#[derive(Debug, PartialEq, Eq)]
pub struct RelayStateSnapshot {
    pub states: Vec<RelayState>,
}

impl View for RelayStateSnapshot {
    type V = Seq<RelayState>;

    open spec fn view(&self) -> Seq<RelayState> {
        self.states@
    }
}

impl RelayStateSnapshot {
    /// Well-formedness: one entry per legal relay id.
    pub open spec fn wf(&self) -> bool {
        self@.len() == RELAY_COUNT
    }

    /// A fresh snapshot with every relay recorded as `Off`.
    pub fn all_off() -> (s: Self)
        ensures
            s.wf(),
            forall|i: int| 0 <= i < RELAY_COUNT ==> s@[i] is Off,
    {
        let mut states: Vec<RelayState> = Vec::new();
        let mut i: usize = 0;
        while i < RELAY_COUNT
            invariant
                i <= RELAY_COUNT,
                states@.len() == i,
                forall|j: int| 0 <= j < i ==> states@[j] is Off,
            decreases RELAY_COUNT - i,
        {
            states.push(RelayState::Off);
            i = i + 1;
        }
        RelayStateSnapshot { states }
    }

    /// Defensive lookup: the state attached to `id`, or `None` for an id
    /// outside the legal addressing range.
    pub fn state_of(&self, id: u8) -> (r: Option<RelayState>)
        requires
            self.wf(),
        ensures
            r == (if RELAY_MIN <= id <= RELAY_MAX {
                Some(self@[id - 1])
            } else {
                None::<RelayState>
            }),
    {
        if RELAY_MIN <= id && id <= RELAY_MAX {
            Some(self.states[(id - 1) as usize])
        } else {
            None
        }
    }
}

// ---------------------------------------------------------------------
// Local snapshot updates and their textual reports.
// ---------------------------------------------------------------------

/// Whether `id` addresses one of the 18 relays.
pub open spec fn id_in_domain(id: u8) -> bool {
    RELAY_MIN <= id && id <= RELAY_MAX
}

/// Whether every id of a range is a legal relay address.
pub open spec fn ids_valid(ids: Seq<u8>) -> bool {
    forall|i: int| 0 <= i < ids.len() ==> id_in_domain(#[trigger] ids[i])
}

/// One overwrite: entry `id - 1` becomes `st`; an out-of-domain id
/// touches nothing.
pub open spec fn upd_one(s: Seq<RelayState>, id: u8, st: RelayState) -> Seq<RelayState> {
    if id_in_domain(id) {
        s.update(id - 1, st)
    } else {
        s
    }
}

/// The snapshot after overwriting every id of `ids`, in order, with `st`.
pub open spec fn upd_list(s: Seq<RelayState>, ids: Seq<u8>, st: RelayState) -> Seq<RelayState>
    decreases ids.len(),
{
    if ids.len() == 0 {
        s
    } else {
        upd_one(upd_list(s, ids.drop_last(), st), ids.last(), st)
    }
}

/// Overwrites never change the snapshot's length.
pub proof fn lemma_upd_list_len(s: Seq<RelayState>, ids: Seq<u8>, st: RelayState)
    requires
        s.len() == 18,
    ensures
        upd_list(s, ids, st).len() == s.len(),
    decreases ids.len(),
{
    if ids.len() > 0 {
        lemma_upd_list_len(s, ids.drop_last(), st);
    }
}

/// What an update does to each entry: entry `i` becomes `st` when some id
/// of the range addresses it, and keeps its old state otherwise.
pub proof fn lemma_upd_list_pointwise(s: Seq<RelayState>, ids: Seq<u8>, st: RelayState, i: int)
    requires
        s.len() == 18,
        0 <= i < s.len(),
    ensures
        upd_list(s, ids, st)[i] == (if ids.contains((i + 1) as u8) {
            st
        } else {
            s[i]
        }),
    decreases ids.len(),
{
    lemma_upd_list_len(s, ids, st);
    if ids.len() > 0 {
        lemma_upd_list_pointwise(s, ids.drop_last(), st, i);
        lemma_upd_list_len(s, ids.drop_last(), st);
        let last = ids.last();
        if ids.drop_last().contains((i + 1) as u8) {
            assert(ids.contains((i + 1) as u8)) by {
                let k = choose|k: int|
                    0 <= k < ids.drop_last().len() && ids.drop_last()[k] == (i + 1) as u8;
                assert(ids[k] == (i + 1) as u8);
            }
        }
        if !ids.drop_last().contains((i + 1) as u8) && last != (i + 1) as u8 {
            assert(!ids.contains((i + 1) as u8)) by {
                if ids.contains((i + 1) as u8) {
                    let k = choose|k: int| 0 <= k < ids.len() && ids[k] == (i + 1) as u8;
                    if k < ids.len() - 1 {
                        assert(ids.drop_last()[k] == (i + 1) as u8);
                    }
                }
            }
        }
    }
}

/// The decimal digit characters of `id` (at most three digits).
pub open spec fn dec_chars(id: u8) -> Seq<char> {
    if id < 10 {
        seq![hex_digit_byte(id as int) as char]
    } else if id < 100 {
        seq![
            hex_digit_byte((id / 10) as int) as char,
            hex_digit_byte((id % 10) as int) as char,
        ]
    } else {
        seq![
            hex_digit_byte((id / 100) as int) as char,
            hex_digit_byte(((id / 10) % 10) as int) as char,
            hex_digit_byte((id % 10) as int) as char,
        ]
    }
}

/// The word a relay state prints as.
pub open spec fn state_word(st: RelayState) -> Seq<char> {
    if st is On {
        seq!['O', 'N']
    } else {
        seq!['O', 'F', 'F']
    }
}

/// One line of an update report: `<id> is <ON|OFF>\n`.
pub open spec fn report_line(id: u8, st: RelayState) -> Seq<char> {
    dec_chars(id) + seq![' ', 'i', 's', ' '] + state_word(st) + seq!['\n']
}

/// The full update report, one line per id in range order.
pub open spec fn report_lines(ids: Seq<u8>, st: RelayState) -> Seq<char>
    decreases ids.len(),
{
    if ids.len() == 0 {
        Seq::empty()
    } else {
        report_lines(ids.drop_last(), st) + report_line(ids.last(), st)
    }
}

/// One line of an exported state block: `<id>=<ON|OFF>\n`, with `ERR` for
/// an id the snapshot cannot answer for.
pub open spec fn export_line(s: Seq<RelayState>, id: u8) -> Seq<char> {
    dec_chars(id) + seq!['='] + (if id_in_domain(id) {
        state_word(s[id - 1])
    } else {
        seq!['E', 'R', 'R']
    }) + seq!['\n']
}

/// The exported lines for a range of ids, in range order.
pub open spec fn export_lines(s: Seq<RelayState>, ids: Seq<u8>) -> Seq<char>
    decreases ids.len(),
{
    if ids.len() == 0 {
        Seq::empty()
    } else {
        export_lines(s, ids.drop_last()) + export_line(s, ids.last())
    }
}

/// The fixed heading of an exported state block.
pub open spec fn export_header() -> Seq<char> {
    ("; Test ini comment\n")@ + ("[RELAYS]\n")@
}

/// The decimal rendering of `id`.
fn dec_string(id: u8) -> (s: String)
    ensures
        s@ == dec_chars(id),
{
    if id < 10 {
        String::from_str(crate::codec::hex_digit_str(id))
    } else if id < 100 {
        String::from_str(crate::codec::hex_digit_str(id / 10)).concat(
            crate::codec::hex_digit_str(id % 10),
        )
    } else {
        String::from_str(crate::codec::hex_digit_str(id / 100)).concat(
            crate::codec::hex_digit_str((id / 10) % 10),
        ).concat(crate::codec::hex_digit_str(id % 10))
    }
}

/// Append ` is <ON|OFF>\n` to a report line.
fn append_state_word_line(s: &mut String, st: RelayState)
    ensures
        final(s)@ == old(s)@ + seq![' ', 'i', 's', ' '] + state_word(st) + seq!['\n'],
{
    proof {
        reveal_strlit(" is ");
        reveal_strlit("ON\n");
        reveal_strlit("OFF\n");
    }
    s.append(" is ");
    if st == RelayState::On {
        s.append("ON\n");
        proof {
            assert(s@ =~= old(s)@ + seq![' ', 'i', 's', ' '] + state_word(st) + seq!['\n']);
        }
    } else {
        s.append("OFF\n");
        proof {
            assert(s@ =~= old(s)@ + seq![' ', 'i', 's', ' '] + state_word(st) + seq!['\n']);
        }
    }
}

// ---------------------------------------------------------------------
// The relay array: connection state machine over a byte channel.
// ---------------------------------------------------------------------

/// Where the link to the interface board stands.
#[derive(Debug, Clone, Copy, PartialEq, Eq, Structural)]
pub enum LinkState {
    /// No contact attempted yet.
    Disconnected,
    /// Probe sent, awaiting a response.
    Handshaking,
    /// The board answered a probe; normal operation is available.
    Ready,
    /// The handshake exhausted its retry budget; terminal.
    Unreachable,
}

/// The handshake exhausted its retry budget without a board response.
#[derive(Debug, Clone, Copy, PartialEq, Eq, Structural)]
pub enum ConnectionError {
    Unreachable,
}

/// Why a relay array operation against the remote board failed.
#[derive(Debug, Clone, Copy, PartialEq, Eq, Structural)]
pub enum RelayError {
    /// The transport failed (write, read timeout, or buffer clear).
    Channel(ChannelError),
    /// The board's response could not be decoded.
    Protocol(ProtocolError),
    /// The requested range names a relay the array does not have.
    RelayNotFound,
}

/// The relay array: the canonical in-memory snapshot of all 18 relay
/// states, and exclusive ownership of the byte channel to the board.
pub struct RelayArray<C: ByteChannel> {
    /// The canonical snapshot; always covers all 18 relays.
    pub state: RelayStateSnapshot,
    /// The channel to the interface board.
    pub serial_interface: C,
    /// Where the connection stands.
    pub link: LinkState,
}

impl<C: ByteChannel> RelayArray<C> {
    /// Well-formedness: the snapshot covers all 18 relays.
    pub open spec fn wf(&self) -> bool {
        self.state.wf()
    }

    /// A fresh array over `channel`: every relay recorded `Off`, link not
    /// yet established.
    pub fn new(channel: C) -> (a: RelayArray<C>)
        ensures
            a.wf(),
            a.link is Disconnected,
            forall|i: int| 0 <= i < RELAY_COUNT ==> a.state@[i] is Off,
    {
        RelayArray { state: RelayStateSnapshot::all_off(), serial_interface: channel, link: LinkState::Disconnected }
    }

    /// The link state, for callers outside the proof world.
    pub fn link_state(&self) -> (l: LinkState)
        ensures
            l == self.link,
    {
        self.link
    }

    /// Establish contact: send a trivial probe and await any non-timeout
    /// response, retrying once to absorb a dropped first response. Two
    /// failures are terminal: the array becomes `Unreachable` and the
    /// error is surfaced — never a silent success.
    pub fn say_handshake(&mut self) -> (r: Result<(), ConnectionError>)
        requires
            old(self).wf(),
            old(self).link is Disconnected,
        ensures
            final(self).wf(),
            final(self).state@ == old(self).state@,
            r is Ok <==> final(self).link is Ready,
            r is Err <==> final(self).link is Unreachable,
    {
        self.link = LinkState::Handshaking;
        let mut attempt: u8 = 0;
        while attempt < 2
            invariant
                self.wf(),
                self.state@ == old(self).state@,
                self.link is Handshaking,
                attempt <= 2,
            decreases 2 - attempt,
        {
            let probe = encode_get_command();
            let wrote = match self.serial_interface.write_data(probe.as_slice()) {
                Ok(_) => true,
                Err(_) => false,
            };
            if wrote {
                let mut buf = response_buffer();
                match self.serial_interface.read_data(&mut buf) {
                    Ok(_) => {
                        self.link = LinkState::Ready;
                        return Ok(());
                    },
                    Err(_) => {},
                }
            }
            attempt = attempt + 1;
        }
        self.link = LinkState::Unreachable;
        Err(ConnectionError::Unreachable)
    }

    /// Resynchronize with the board: send `get\r\n`, read one bounded
    /// response, discard trailing input, decode, and replace the whole
    /// snapshot. Any failure leaves the previous snapshot untouched.
    pub fn fetch_state_from_remote(&mut self) -> (r: Result<(), RelayError>)
        requires
            old(self).wf(),
            old(self).link is Ready,
        ensures
            final(self).wf(),
            final(self).link == old(self).link,
            match r {
                Ok(()) => exists|raw: Seq<u8>|
                    decode_spec(raw) == Ok::<Seq<RelayState>, ProtocolError>(final(self).state@),
                Err(e) => final(self).state@ == old(self).state@ && (e is Channel
                    || e is Protocol),
            },
    {
        let cmd = encode_get_command();
        match self.serial_interface.write_data(cmd.as_slice()) {
            Ok(_) => {},
            Err(e) => {
                return Err(RelayError::Channel(e));
            },
        }
        let mut buf = response_buffer();
        match self.serial_interface.read_data(&mut buf) {
            Ok(_) => {},
            Err(e) => {
                return Err(RelayError::Channel(e));
            },
        }
        match self.serial_interface.clear_input_buffer() {
            Ok(_) => {},
            Err(e) => {
                return Err(RelayError::Channel(e));
            },
        }
        match decode_state_response(&buf) {
            Ok(snap) => {
                self.state = snap;
                proof {
                    assert(decode_spec(buf@) == Ok::<Seq<RelayState>, ProtocolError>(self.state@));
                }
                Ok(())
            },
            Err(e) => Err(RelayError::Protocol(e)),
        }
    }

    /// Overwrite the snapshot entries of `relay_range` with `state`,
    /// returning the textual report of what changed. An id outside the
    /// domain stops the walk and reports failure; entries already written
    /// in the same call stay written.
    pub fn update_local_state(&mut self, relay_range: &Vec<u8>, state: RelayState) -> (r: Option<
        String,
    >)
        requires
            old(self).wf(),
        ensures
            final(self).wf(),
            final(self).link == old(self).link,
            final(self).serial_interface == old(self).serial_interface,
            match r {
                Some(report) => ids_valid(relay_range@) && final(self).state@ == upd_list(
                    old(self).state@,
                    relay_range@,
                    state,
                ) && report@ == report_lines(relay_range@, state),
                None => exists|k: int|
                    0 <= k < relay_range@.len() && !id_in_domain(relay_range@[k]) && ids_valid(
                        relay_range@.take(k),
                    ) && final(self).state@ == upd_list(
                        old(self).state@,
                        relay_range@.take(k),
                        state,
                    ),
            },
    {
        let mut report = String::new();
        let mut k: usize = 0;
        while k < relay_range.len()
            invariant
                self.wf(),
                self.link == old(self).link,
                self.serial_interface == old(self).serial_interface,
                k <= relay_range@.len(),
                ids_valid(relay_range@.take(k as int)),
                self.state@ == upd_list(old(self).state@, relay_range@.take(k as int), state),
                report@ == report_lines(relay_range@.take(k as int), state),
            decreases relay_range@.len() - k,
        {
            let id = relay_range[k];
            proof {
                assert(relay_range@.take(k + 1).drop_last() =~= relay_range@.take(k as int));
                assert(relay_range@.take(k + 1).last() == id);
            }
            if RELAY_MIN <= id && id <= RELAY_MAX {
                self.state.states[(id - 1) as usize] = state;
                let line = dec_string(id);
                report.append(line.as_str());
                append_state_word_line(&mut report, state);
                proof {
                    assert(report@ =~= report_lines(relay_range@.take(k + 1), state));
                }
            } else {
                proof {
                    assert(relay_range@.take(k as int) =~= relay_range@.take(k as int));
                }
                return None;
            }
            k = k + 1;
        }
        proof {
            assert(relay_range@.take(relay_range@.len() as int) =~= relay_range@);
        }
        Some(report)
    }

    /// Pure read of the current snapshot: the state of each id of the
    /// range, in range order, with `None` reported defensively for an id
    /// outside the domain.
    pub fn query_local_state(&self, relay_range: &Vec<u8>) -> (r: Vec<Option<RelayState>>)
        requires
            self.wf(),
        ensures
            r@.len() == relay_range@.len(),
            forall|k: int|
                0 <= k < r@.len() ==> r@[k] == (if id_in_domain(relay_range@[k]) {
                    Some(self.state@[relay_range@[k] - 1])
                } else {
                    None::<RelayState>
                }),
    {
        let mut out: Vec<Option<RelayState>> = Vec::new();
        let mut k: usize = 0;
        while k < relay_range.len()
            invariant
                self.wf(),
                k <= relay_range@.len(),
                out@.len() == k,
                forall|j: int|
                    0 <= j < k ==> out@[j] == (if id_in_domain(relay_range@[j]) {
                        Some(self.state@[relay_range@[j] - 1])
                    } else {
                        None::<RelayState>
                    }),
            decreases relay_range@.len() - k,
        {
            out.push(self.state.state_of(relay_range[k]));
            k = k + 1;
        }
        out
    }

    /// Render the states of `relay_range` as an ini-style block, one
    /// `<id>=<ON|OFF>` line per id (`ERR` for an id outside the domain).
    pub fn export_local_state(&self, relay_range: &Vec<u8>) -> (r: String)
        requires
            self.wf(),
        ensures
            r@ == export_header() + export_lines(self.state@, relay_range@),
    {
        proof {
            reveal_strlit("; Test ini comment\n");
            reveal_strlit("[RELAYS]\n");
            reveal_strlit("=");
            reveal_strlit("=ERR\n");
            reveal_strlit("ON\n");
            reveal_strlit("OFF\n");
        }
        let mut out = String::new();
        out.append("; Test ini comment\n");
        out.append("[RELAYS]\n");
        proof {
            assert(out@ =~= export_header() + export_lines(
                self.state@,
                relay_range@.take(0int),
            ));
        }
        let mut k: usize = 0;
        while k < relay_range.len()
            invariant
                self.wf(),
                k <= relay_range@.len(),
                out@ == export_header() + export_lines(self.state@, relay_range@.take(k as int)),
            decreases relay_range@.len() - k,
        {
            let id = relay_range[k];
            proof {
                reveal_strlit("=");
                reveal_strlit("=ERR\n");
                reveal_strlit("ON\n");
                reveal_strlit("OFF\n");
                assert(relay_range@.take(k + 1).drop_last() =~= relay_range@.take(k as int));
                assert(relay_range@.take(k + 1).last() == id);
            }
            let line = dec_string(id);
            out.append(line.as_str());
            if RELAY_MIN <= id && id <= RELAY_MAX {
                out.append("=");
                let st = self.state.states[(id - 1) as usize];
                if st == RelayState::On {
                    out.append("ON\n");
                } else {
                    out.append("OFF\n");
                }
            } else {
                out.append("=ERR\n");
            }
            proof {
                assert(out@ =~= export_header() + export_lines(
                    self.state@,
                    relay_range@.take(k + 1),
                ));
            }
            k = k + 1;
        }
        proof {
            assert(relay_range@.take(relay_range@.len() as int) =~= relay_range@);
        }
        out
    }

    /// The snapshot's wire bitmask rendered as lowercase hex text.
    pub fn serialize_local_state(&self) -> (r: String)
        requires
            self.wf(),
        ensures
            r@ == hex_chars(mask_of(self.state@) as nat),
    {
        hex_string(encode_bitmask(&self.state))
    }

    /// The composite set operation. Order is load-bearing: resynchronize
    /// with the board first, overwrite only the requested ids in memory,
    /// then transmit the whole resulting 18-relay bitmask — so setting a
    /// few relays never clobbers the others' remembered state.
    ///
    /// Failure dispositions: a failure of the fetch aborts before any
    /// mutation; an out-of-domain id aborts before transmission, the ids
    /// before it already overwritten onto the fetched snapshot; a failed
    /// final write leaves the snapshot fully updated while the board was
    /// never commanded — a reported divergence, not a silent one.
    pub fn push_state_to_remote(&mut self, relay_range: &Vec<u8>, state: RelayState) -> (r: Result<
        (),
        RelayError,
    >)
        requires
            old(self).wf(),
            old(self).link is Ready,
        ensures
            final(self).wf(),
            final(self).link == old(self).link,
            match r {
                Ok(()) => ids_valid(relay_range@) && exists|raw: Seq<u8>, s0: Seq<RelayState>|
                    decode_spec(raw) == Ok::<Seq<RelayState>, ProtocolError>(s0)
                        && final(self).state@ == upd_list(s0, relay_range@, state),
                Err(RelayError::RelayNotFound) => !ids_valid(relay_range@) && exists|
                    raw: Seq<u8>,
                    s0: Seq<RelayState>,
                    k: int,
                |
                    decode_spec(raw) == Ok::<Seq<RelayState>, ProtocolError>(s0) && 0 <= k
                        < relay_range@.len() && !id_in_domain(relay_range@[k]) && ids_valid(
                        relay_range@.take(k),
                    ) && final(self).state@ == upd_list(s0, relay_range@.take(k), state),
                Err(e) => e is Channel || e is Protocol,
            },
            r matches Err(RelayError::Protocol(_)) ==> final(self).state@ == old(self).state@,
            r matches Err(RelayError::Channel(_)) ==> final(self).state@ == old(self).state@ || (
            ids_valid(relay_range@) && exists|raw: Seq<u8>, s0: Seq<RelayState>|
                decode_spec(raw) == Ok::<Seq<RelayState>, ProtocolError>(s0)
                    && final(self).state@ == upd_list(s0, relay_range@, state)),
    {
        match self.fetch_state_from_remote() {
            Ok(()) => {},
            Err(e) => {
                // step 1 failed: aborted before any mutation
                return Err(e);
            },
        }
        let ghost fetched = self.state@;
        // a response the fetch decoded, named for the failure clauses
        let ghost raw0 = choose|raw: Seq<u8>|
            decode_spec(raw) == Ok::<Seq<RelayState>, ProtocolError>(fetched);
        proof {
            assert(decode_spec(raw0) == Ok::<Seq<RelayState>, ProtocolError>(fetched));
        }
        match self.update_local_state(relay_range, state) {
            Some(_report) => {},
            None => {
                proof {
                    let k = choose|k: int|
                        0 <= k < relay_range@.len() && !id_in_domain(relay_range@[k]) && ids_valid(
                            relay_range@.take(k),
                        ) && self.state@ == upd_list(fetched, relay_range@.take(k), state);
                    assert(!id_in_domain(relay_range@[k]));
                    assert(decode_spec(raw0) == Ok::<Seq<RelayState>, ProtocolError>(fetched) && 0
                        <= k < relay_range@.len() && !id_in_domain(relay_range@[k]) && ids_valid(
                        relay_range@.take(k),
                    ) && self.state@ == upd_list(fetched, relay_range@.take(k), state));
                }
                // step 2 found an unknown relay: abort before transmission
                return Err(RelayError::RelayNotFound);
            },
        }
        let data = encode_set_command(&self.state);
        match self.serial_interface.write_data(data.as_slice()) {
            Ok(_) => Ok(()),
            Err(e) => {
                // step 3 failed: the snapshot keeps the applied update,
                // the board was never commanded
                proof {
                    assert(decode_spec(raw0) == Ok::<Seq<RelayState>, ProtocolError>(fetched)
                        && self.state@ == upd_list(fetched, relay_range@, state));
                }
                Err(RelayError::Channel(e))
            },
        }
    }
}

/// The board's response buffer: a fixed 26-byte read window.
fn response_buffer() -> (b: Vec<u8>)
    ensures
        b@.len() == 26,
{
    let mut b: Vec<u8> = Vec::new();
    let mut i: usize = 0;
    while i < 26
        invariant
            i <= 26,
            b@.len() == i,
        decreases 26 - i,
    {
        b.push(0);
        i = i + 1;
    }
    b
}

// ---------------------------------------------------------------------
// Laws of the state machine.
// ---------------------------------------------------------------------

/// Fetch is idempotent: the snapshot a successful fetch installs is a
/// function of the board's response alone, so two fetches in a row that
/// read the same response (a board whose true state has not changed)
/// install the same snapshot — whatever was in memory in between.
pub proof fn lemma_fetch_idempotent(raw: Seq<u8>, s1: Seq<RelayState>, s2: Seq<RelayState>)
    requires
        decode_spec(raw) == Ok::<Seq<RelayState>, ProtocolError>(s1),
        decode_spec(raw) == Ok::<Seq<RelayState>, ProtocolError>(s2),
    ensures
        s1 == s2,
{
}

/// What a push transmits: starting from the fetched snapshot `s0`, the
/// pushed bitmask has bit `i` set for a requested relay iff the new state
/// is `On`, and keeps `s0`'s bit for every relay the range leaves alone.
pub proof fn lemma_push_mask_bits(s0: Seq<RelayState>, ids: Seq<u8>, st: RelayState, i: int)
    requires
        s0.len() == 18,
        0 <= i < 18,
    ensures
        mask_bit(mask_of(upd_list(s0, ids, st)), i) == (if ids.contains((i + 1) as u8) {
            st is On
        } else {
            mask_bit(mask_of(s0), i)
        }),
{
    lemma_upd_list_len(s0, ids, st);
    lemma_upd_list_pointwise(s0, ids, st, i);
    crate::codec::lemma_mask_of_bits(upd_list(s0, ids, st), i);
    crate::codec::lemma_mask_of_bits(s0, i);
}

} // verus!
