//! The relay protocol codec: a snapshot of the 18 relay states travels on
//! the wire as a 32-bit bitmask rendered in lowercase ASCII hex. Encoding
//! builds `set <hex>\r\n` frames; decoding strips line noise from a
//! `tag:hex` response and rebuilds the full snapshot.

use vstd::prelude::*;
use vstd::string::{StrSliceExecFns, StringExecFns};

use crate::relay::{RelayState, RelayStateSnapshot, RELAY_COUNT};

verus! {

/// Why a board response could not be decoded.
#[derive(Debug, Clone, Copy, PartialEq, Eq, Structural)]
pub enum ProtocolError {
    /// The filtered response still held bytes with no ASCII reading.
    NotAscii,
    /// The response carries no `:` delimiter.
    MalformedFrame,
    /// The text after the delimiter is not a hex number that fits the
    /// 32-bit bitmask.
    BadHexPayload,
}

// ---------------------------------------------------------------------
// The bitmask: bit (id - 1) of a 32-bit word holds the state of relay id.
// ---------------------------------------------------------------------

/// Whether bit `i` of `m` is set; meaningful for `0 <= i < 32`.
pub open spec fn mask_bit(m: u32, i: int) -> bool {
    (m >> (i as u32)) & 1u32 == 1u32
}

/// The bitmask of the first `n` entries of a snapshot: bit `i` set iff
/// entry `i` (relay `i + 1`) is `On`.
pub open spec fn mask_of_prefix(s: Seq<RelayState>, n: int) -> u32
    decreases n,
{
    if n <= 0 {
        0u32
    } else {
        mask_of_prefix(s, n - 1) | (if s[n - 1] is On {
            1u32 << ((n - 1) as u32)
        } else {
            0u32
        })
    }
}

/// The bitmask of a full 18-entry snapshot.
pub open spec fn mask_of(s: Seq<RelayState>) -> u32 {
    mask_of_prefix(s, RELAY_COUNT as int)
}

/// The snapshot a 32-bit bitmask denotes: relay `i + 1` is `On` iff bit
/// `i` is set.
pub open spec fn snapshot_of_mask(m: u32) -> Seq<RelayState> {
    Seq::new(RELAY_COUNT as nat, |i: int| if mask_bit(m, i) {
        RelayState::On
    } else {
        RelayState::Off
    })
}

/// A prefix mask only uses the low `n` bits.
proof fn lemma_mask_prefix_bound(s: Seq<RelayState>, n: int)
    requires
        0 <= n <= 18,
    ensures
        mask_of_prefix(s, n) < (1u32 << (n as u32)),
    decreases n,
{
    if n <= 0 {
        assert(0u32 < (1u32 << 0u32)) by (bit_vector);
    } else {
        lemma_mask_prefix_bound(s, n - 1);
        let m = mask_of_prefix(s, n - 1);
        let k = (n - 1) as u32;
        assert(m < (1u32 << k) && k < 18 ==> (m | (1u32 << k)) < (1u32 << (k + 1)) && (m | 0u32)
            < (1u32 << (k + 1))) by (bit_vector);
    }
}

/// Bit `i` of a prefix mask reads back entry `i` of the snapshot.
proof fn lemma_mask_prefix_bit(s: Seq<RelayState>, n: int, i: int)
    requires
        0 <= i < n <= 18,
    ensures
        mask_bit(mask_of_prefix(s, n), i) == (s[i] is On),
    decreases n,
{
    let m = mask_of_prefix(s, n - 1);
    let k = (n - 1) as u32;
    lemma_mask_prefix_bound(s, n - 1);
    if i == n - 1 {
        assert(m < (1u32 << k) && k < 18 ==> ((m | (1u32 << k)) >> k) & 1u32 == 1u32 && ((m
            | 0u32) >> k) & 1u32 == (m >> k) & 1u32 && (m >> k) & 1u32 == 0u32) by (bit_vector);
    } else {
        lemma_mask_prefix_bit(s, n - 1, i);
        let j = i as u32;
        assert(j < k < 18 ==> ((m | (1u32 << k)) >> j) & 1u32 == (m >> j) & 1u32 && ((m | 0u32)
            >> j) & 1u32 == (m >> j) & 1u32) by (bit_vector);
    }
}

/// Each bit of the full bitmask reads back the matching snapshot entry.
pub proof fn lemma_mask_of_bits(s: Seq<RelayState>, i: int)
    requires
        0 <= i < 18,
    ensures
        mask_bit(mask_of(s), i) == (s[i] is On),
{
    lemma_mask_prefix_bit(s, 18, i);
}

/// Decoding the bitmask of a snapshot reproduces the snapshot.
pub proof fn lemma_mask_round_trip(s: Seq<RelayState>)
    requires
        s.len() == 18,
    ensures
        snapshot_of_mask(mask_of(s)) =~= s,
{
    assert forall|i: int| 0 <= i < 18 implies snapshot_of_mask(mask_of(s))[i] == s[i] by {
        lemma_mask_of_bits(s, i);
    }
}

// ---------------------------------------------------------------------
// Lowercase hexadecimal rendering of the bitmask, and hex parsing of the
// payload the board sends back.
// ---------------------------------------------------------------------

/// The ASCII byte of hex digit `d` (lowercase letters), for `0 <= d < 16`.
pub open spec fn hex_digit_byte(d: int) -> u8 {
    if d < 10 {
        (48 + d) as u8
    } else {
        (87 + d) as u8
    }
}

/// The ASCII bytes of `m` in lowercase hex, most significant digit first,
/// no leading zeroes (`0` renders as `"0"`).
pub open spec fn hex_bytes(m: nat) -> Seq<u8>
    decreases m,
{
    if m < 16 {
        seq![hex_digit_byte(m as int)]
    } else {
        hex_bytes(m / 16).push(hex_digit_byte((m % 16) as int))
    }
}

/// The same rendering as characters.
pub open spec fn hex_chars(m: nat) -> Seq<char> {
    hex_bytes(m).map(|i: int, b: u8| b as char)
}

/// Whether `c` is a hexadecimal digit (either case accepted on input).
pub open spec fn is_hex_digit(c: char) -> bool {
    ('0' <= c && c <= '9') || ('a' <= c && c <= 'f') || ('A' <= c && c <= 'F')
}

/// The value of hex digit `c`; meaningful only when `is_hex_digit(c)`.
pub open spec fn hex_digit_val(c: char) -> int {
    if '0' <= c && c <= '9' {
        c as int - 48
    } else if 'a' <= c && c <= 'f' {
        c as int - 87
    } else {
        c as int - 55
    }
}

/// A non-empty run of hex digits.
pub open spec fn is_hex_str(s: Seq<char>) -> bool {
    s.len() > 0 && forall|i: int| 0 <= i < s.len() ==> is_hex_digit(#[trigger] s[i])
}

/// The number a run of hex digits denotes, most significant digit first.
pub open spec fn hex_val(s: Seq<char>) -> int
    decreases s.len(),
{
    if s.len() == 0 {
        0
    } else {
        16 * hex_val(s.drop_last()) + hex_digit_val(s.last())
    }
}

/// The hex rendering of `m` is a digit run that parses back to `m`.
pub proof fn lemma_hex_round_trip(m: nat)
    ensures
        is_hex_str(hex_chars(m)),
        hex_val(hex_chars(m)) == m,
    decreases m,
{
    if m < 16 {
        let c = hex_digit_byte(m as int) as char;
        assert(hex_chars(m) =~= seq![c]);
        assert(hex_chars(m).drop_last() =~= Seq::<char>::empty());
        assert(hex_val(Seq::<char>::empty()) == 0);
        assert(hex_val(hex_chars(m)) == 16 * hex_val(Seq::<char>::empty()) + hex_digit_val(c));
        assert(hex_digit_val(c) == m);
    } else {
        lemma_hex_round_trip(m / 16);
        let c = hex_digit_byte((m % 16) as int) as char;
        assert(hex_chars(m) =~= hex_chars(m / 16).push(c));
        assert(hex_chars(m).drop_last() =~= hex_chars(m / 16));
        assert(hex_chars(m).last() == c);
        assert(16 * (m / 16) + (m % 16) == m) by {
            vstd::arithmetic::div_mod::lemma_fundamental_div_mod(m as int, 16);
        }
    }
}

/// Every byte of a hex rendering is a digit or a lowercase letter.
pub proof fn lemma_hex_bytes_range(m: nat)
    ensures
        forall|i: int|
            0 <= i < hex_bytes(m).len() ==> (48 <= #[trigger] hex_bytes(m)[i] <= 57 || 97
                <= hex_bytes(m)[i] <= 102),
    decreases m,
{
    if m < 16 {
        assert(hex_bytes(m) =~= seq![hex_digit_byte(m as int)]);
    } else {
        lemma_hex_bytes_range(m / 16);
        let tail = hex_digit_byte((m % 16) as int);
        assert forall|i: int| 0 <= i < hex_bytes(m).len() implies (48 <= #[trigger] hex_bytes(m)[i]
            <= 57 || 97 <= hex_bytes(m)[i] <= 102) by {
            if i < hex_bytes(m / 16).len() {
                assert(hex_bytes(m)[i] == hex_bytes(m / 16)[i]);
            } else {
                assert(hex_bytes(m)[i] == tail);
            }
        }
    }
}

// ---------------------------------------------------------------------
// Decoding a raw board response.
// ---------------------------------------------------------------------

/// Which raw bytes survive the line-noise filter.
pub open spec fn keeps_wire_byte(b: u8) -> bool {
    48 <= b && b <= 128
}

/// The raw response with noise bytes outside `[48, 128]` dropped.
pub open spec fn filter_wire(raw: Seq<u8>) -> Seq<u8> {
    raw.filter(|b: u8| keeps_wire_byte(b))
}

/// Whether every byte has an ASCII text reading.
pub open spec fn ascii_readable(f: Seq<u8>) -> bool {
    forall|i: int| 0 <= i < f.len() ==> 32 <= #[trigger] f[i] <= 126
}

/// The filtered bytes read as characters.
pub open spec fn wire_chars(f: Seq<u8>) -> Seq<char> {
    f.map(|i: int, b: u8| b as char)
}

/// Index of the first `:` in `s` (equals `s.len()` when there is none).
pub open spec fn first_colon(s: Seq<char>) -> int
    decreases s.len(),
{
    if s.len() == 0 {
        0
    } else if s[0] == ':' {
        0
    } else {
        1 + first_colon(s.skip(1))
    }
}

/// Whether `s` carries the `tag:payload` delimiter at all.
pub open spec fn has_colon(s: Seq<char>) -> bool {
    exists|i: int| 0 <= i < s.len() && s[i] == ':'
}

/// What decoding a raw board response yields: the noise filter, the ASCII
/// reading, the `tag:hex` split, the hex parse, and the expansion of the
/// resulting 32-bit bitmask into a full 18-entry snapshot.
pub open spec fn decode_spec(raw: Seq<u8>) -> Result<Seq<RelayState>, ProtocolError> {
    let f = filter_wire(raw);
    if !ascii_readable(f) {
        Err(ProtocolError::NotAscii)
    } else {
        let s = wire_chars(f);
        if !has_colon(s) {
            Err(ProtocolError::MalformedFrame)
        } else {
            let p = s.skip(first_colon(s) + 1);
            if !is_hex_str(p) || hex_val(p) > u32::MAX {
                Err(ProtocolError::BadHexPayload)
            } else {
                Ok(snapshot_of_mask(hex_val(p) as u32))
            }
        }
    }
}

/// A scan that stops at the first `:` really computes `first_colon`.
proof fn lemma_first_colon_at(s: Seq<char>, i: int)
    requires
        0 <= i < s.len(),
        s[i] == ':',
        forall|j: int| 0 <= j < i ==> s[j] != ':',
    ensures
        first_colon(s) == i,
    decreases i,
{
    if i > 0 {
        lemma_first_colon_at(s.skip(1), i - 1);
    }
}

/// Relies on `ascii_converter::decimals_to_string`: it returns the bytes
/// read as an ASCII string exactly when every byte lies in `32..=126`,
/// and reports an error otherwise.
#[verifier::external_body]
fn bytes_to_ascii_text(bytes: &Vec<u8>) -> (r: Option<String>)
    ensures
        match r {
            Some(s) => ascii_readable(bytes@) && s@ == wire_chars(bytes@),
            None => !ascii_readable(bytes@),
        },
{
    match ascii_converter::decimals_to_string(bytes) {
        Ok(s) => Some(s),
        Err(_) => None,
    }
}

/// Drop every byte outside the printable window `[48, 128]`.
fn filter_response(raw: &Vec<u8>) -> (f: Vec<u8>)
    ensures
        f@ == filter_wire(raw@),
{
    let mut filtered: Vec<u8> = Vec::new();
    let mut i: usize = 0;
    while i < raw.len()
        invariant
            i <= raw.len(),
            filtered@ == filter_wire(raw@.take(i as int)),
        decreases raw.len() - i,
    {
        let b = raw[i];
        proof {
            reveal(Seq::filter);
            assert(raw@.take(i + 1).drop_last() =~= raw@.take(i as int));
            assert(raw@.take(i + 1).last() == b);
        }
        if 48 <= b && b <= 128 {
            filtered.push(b);
        }
        i = i + 1;
    }
    proof {
        assert(raw@.take(raw@.len() as int) =~= raw@);
    }
    filtered
}

/// Index of the first `:` of `s`, if any.
fn find_colon(s: &str) -> (r: Option<usize>)
    ensures
        match r {
            Some(i) => has_colon(s@) && first_colon(s@) == i && i < s@.len() && s@.len()
                <= usize::MAX,
            None => !has_colon(s@),
        },
{
    let n = s.unicode_len();
    let mut i: usize = 0;
    while i < n
        invariant
            i <= n,
            n == s@.len(),
            forall|j: int| 0 <= j < i ==> s@[j] != ':',
        decreases n - i,
    {
        if s.get_char(i) == ':' {
            proof {
                lemma_first_colon_at(s@, i as int);
            }
            return Some(i);
        }
        i = i + 1;
    }
    None
}

/// The value of a single hex digit character, if it is one.
fn hex_digit_value(c: char) -> (r: Option<u8>)
    ensures
        match r {
            Some(d) => is_hex_digit(c) && d == hex_digit_val(c) && d < 16,
            None => !is_hex_digit(c),
        },
{
    if '0' <= c && c <= '9' {
        Some((c as u8) - 48)
    } else if 'a' <= c && c <= 'f' {
        Some((c as u8) - 87)
    } else if 'A' <= c && c <= 'F' {
        Some((c as u8) - 55)
    } else {
        None
    }
}

/// Parse `s[start..]` as a hex number that must fit the 32-bit bitmask.
fn parse_hex_payload(s: &str, start: usize) -> (r: Option<u32>)
    requires
        start <= s@.len(),
    ensures
        ({
            let p = s@.skip(start as int);
            match r {
                Some(m) => is_hex_str(p) && hex_val(p) == m,
                None => !is_hex_str(p) || hex_val(p) > u32::MAX,
            }
        }),
{
    let ghost p = s@.skip(start as int);
    let n = s.unicode_len();
    if start == n {
        return None;
    }
    let mut acc: u32 = 0;
    let mut too_big = false;
    let mut j: usize = start;
    while j < n
        invariant
            start <= j <= n,
            n == s@.len(),
            p == s@.skip(start as int),
            p.len() == n - start,
            forall|k: int| 0 <= k < j - start ==> is_hex_digit(#[trigger] p[k]),
            !too_big ==> acc == hex_val(p.take(j - start)),
            too_big ==> hex_val(p.take(j - start)) > u32::MAX,
        decreases n - j,
    {
        let c = s.get_char(j);
        proof {
            assert(p[j - start] == s@[j as int]);
        }
        let d = match hex_digit_value(c) {
            Some(d) => d,
            None => {
                return None;
            },
        };
        proof {
            assert(p.take(j - start + 1).drop_last() =~= p.take(j - start));
            assert(p.take(j - start + 1).last() == p[j - start]);
        }
        if too_big || acc > 0x0fff_ffff {
            proof {
                let prev = hex_val(p.take(j - start));
                assert(hex_val(p.take(j - start + 1)) == 16 * prev + d);
            }
            too_big = true;
        } else {
            acc = acc * 16 + (d as u32);
        }
        j = j + 1;
    }
    proof {
        assert(p.take(p.len() as int) =~= p);
    }
    if too_big {
        None
    } else {
        Some(acc)
    }
}

/// Expand a 32-bit bitmask into the full snapshot it denotes.
fn snapshot_from_mask(m: u32) -> (snap: RelayStateSnapshot)
    ensures
        snap.wf(),
        snap@ == snapshot_of_mask(m),
{
    let mut states: Vec<RelayState> = Vec::new();
    let mut i: usize = 0;
    while i < RELAY_COUNT
        invariant
            i <= RELAY_COUNT,
            states@.len() == i,
            forall|j: int| 0 <= j < i ==> states@[j] == snapshot_of_mask(m)[j],
        decreases RELAY_COUNT - i,
    {
        if (m >> (i as u32)) & 1 == 1 {
            states.push(RelayState::On);
        } else {
            states.push(RelayState::Off);
        }
        i = i + 1;
    }
    proof {
        assert(states@ =~= snapshot_of_mask(m));
    }
    RelayStateSnapshot { states }
}

// ---------------------------------------------------------------------
// Encoding commands for the board.
// ---------------------------------------------------------------------

/// The fixed query frame `get\r\n`.
pub open spec fn get_cmd_bytes() -> Seq<u8> {
    seq![103u8, 101u8, 116u8, 13u8, 10u8]
}

/// The full command frame `set <hex>\r\n` for a snapshot.
pub open spec fn set_cmd_bytes(s: Seq<RelayState>) -> Seq<u8> {
    seq![115u8, 101u8, 116u8, 32u8] + hex_bytes(mask_of(s) as nat) + seq![13u8, 10u8]
}

/// Compute the wire bitmask of a snapshot: bit `id - 1` set iff relay
/// `id` is `On`, all bits above the 18 relays clear.
pub fn encode_bitmask(snap: &RelayStateSnapshot) -> (m: u32)
    requires
        snap.wf(),
    ensures
        m == mask_of(snap@),
{
    let mut m: u32 = 0;
    let mut i: usize = 0;
    while i < RELAY_COUNT
        invariant
            i <= RELAY_COUNT,
            snap.wf(),
            m == mask_of_prefix(snap@, i as int),
        decreases RELAY_COUNT - i,
    {
        if snap.states[i] == RelayState::On {
            m = m | (1u32 << (i as u32));
        } else {
            proof {
                assert(m | 0u32 == m) by (bit_vector);
            }
        }
        i = i + 1;
    }
    m
}

/// The ASCII byte of hex digit `d`.
fn hex_digit_of(d: u8) -> (b: u8)
    requires
        d < 16,
    ensures
        b == hex_digit_byte(d as int),
{
    if d < 10 {
        48 + d
    } else {
        87 + d
    }
}

/// The lowercase hex rendering of `m` as wire bytes.
fn hex_digits_vec(m: u32) -> (v: Vec<u8>)
    ensures
        v@ == hex_bytes(m as nat),
    decreases m,
{
    if m < 16 {
        let mut v: Vec<u8> = Vec::new();
        v.push(hex_digit_of(m as u8));
        proof {
            assert(v@ =~= hex_bytes(m as nat));
        }
        v
    } else {
        let mut v = hex_digits_vec(m / 16);
        v.push(hex_digit_of((m % 16) as u8));
        v
    }
}

/// The one-character string of hex digit `d`.
pub(crate) fn hex_digit_str(d: u8) -> (s: &'static str)
    requires
        d < 16,
    ensures
        s@ =~= seq![hex_digit_byte(d as int) as char],
{
    proof {
        reveal_strlit("0");
        reveal_strlit("1");
        reveal_strlit("2");
        reveal_strlit("3");
        reveal_strlit("4");
        reveal_strlit("5");
        reveal_strlit("6");
        reveal_strlit("7");
        reveal_strlit("8");
        reveal_strlit("9");
        reveal_strlit("a");
        reveal_strlit("b");
        reveal_strlit("c");
        reveal_strlit("d");
        reveal_strlit("e");
        reveal_strlit("f");
    }
    match d {
        0 => "0",
        1 => "1",
        2 => "2",
        3 => "3",
        4 => "4",
        5 => "5",
        6 => "6",
        7 => "7",
        8 => "8",
        9 => "9",
        10 => "a",
        11 => "b",
        12 => "c",
        13 => "d",
        14 => "e",
        _ => "f",
    }
}

/// The lowercase hex rendering of `m` as a string.
pub fn hex_string(m: u32) -> (s: String)
    ensures
        s@ == hex_chars(m as nat),
    decreases m,
{
    if m < 16 {
        let s = String::from_str(hex_digit_str(m as u8));
        proof {
            assert(s@ =~= hex_chars(m as nat));
        }
        s
    } else {
        let s = hex_string(m / 16).concat(hex_digit_str((m % 16) as u8));
        proof {
            assert(hex_chars(m as nat) =~= hex_chars((m / 16) as nat).push(
                hex_digit_byte((m % 16) as int) as char,
            ));
            assert(s@ =~= hex_chars(m as nat));
        }
        s
    }
}

/// Build the query frame `get\r\n`.
pub fn encode_get_command() -> (c: Vec<u8>)
    ensures
        c@ == get_cmd_bytes(),
{
    let mut v: Vec<u8> = Vec::new();
    v.push(103);
    v.push(101);
    v.push(116);
    v.push(13);
    v.push(10);
    proof {
        assert(v@ =~= get_cmd_bytes());
    }
    v
}

/// Build the command frame `set <hex>\r\n` carrying the full snapshot.
pub fn encode_set_command(snap: &RelayStateSnapshot) -> (c: Vec<u8>)
    requires
        snap.wf(),
    ensures
        c@ == set_cmd_bytes(snap@),
{
    let m = encode_bitmask(snap);
    let mut hex = hex_digits_vec(m);
    let mut v: Vec<u8> = Vec::new();
    v.push(115);
    v.push(101);
    v.push(116);
    v.push(32);
    v.append(&mut hex);
    v.push(13);
    v.push(10);
    proof {
        assert(v@ =~= set_cmd_bytes(snap@));
    }
    v
}

// ---------------------------------------------------------------------
// Laws: encode/decode round trip, and immunity to line noise.
// ---------------------------------------------------------------------

/// A raw board response carrying bitmask `m`: some tag, the delimiter,
/// then the hex payload.
pub open spec fn board_frame(tag: Seq<u8>, m: u32) -> Seq<u8> {
    tag + seq![58u8] + hex_bytes(m as nat)
}

/// The noise filter keeps a sequence of in-window bytes whole.
proof fn lemma_filter_all_kept(s: Seq<u8>)
    requires
        forall|i: int| 0 <= i < s.len() ==> keeps_wire_byte(#[trigger] s[i]),
    ensures
        filter_wire(s) == s,
    decreases s.len(),
{
    reveal(Seq::filter);
    if s.len() == 0 {
        assert(filter_wire(s) =~= s);
    } else {
        lemma_filter_all_kept(s.drop_last());
        assert(filter_wire(s) =~= filter_wire(s.drop_last()).push(s.last()));
        assert(filter_wire(s.drop_last()).push(s.last()) =~= s);
    }
}

/// A well-shaped frame passes the noise filter whole, reads as ASCII,
/// and splits exactly at the tag's delimiter.
#[verifier::spinoff_prover]
#[verifier::rlimit(100)]
proof fn lemma_frame_shape(tag: Seq<u8>, hx: Seq<u8>)
    requires
        forall|i: int| 0 <= i < tag.len() ==> 48 <= #[trigger] tag[i] <= 126 && tag[i] != 58,
        forall|i: int|
            0 <= i < hx.len() ==> (48 <= #[trigger] hx[i] <= 57 || 97 <= hx[i] <= 102),
    ensures
        ({
            let frame = tag + seq![58u8] + hx;
            let chars = wire_chars(frame);
            filter_wire(frame) == frame && ascii_readable(frame) && has_colon(chars)
                && first_colon(chars) == tag.len() && chars.skip(tag.len() as int + 1)
                == wire_chars(hx)
        }),
{
    let frame = tag + seq![58u8] + hx;
    let t = tag.len() as int;
    assert forall|i: int| 0 <= i < frame.len() implies keeps_wire_byte(#[trigger] frame[i]) && 32
        <= frame[i] <= 126 by {
        if i < t {
            assert(frame[i] == tag[i]);
        } else if i == t {
            assert(frame[i] == 58u8);
        } else {
            assert(frame[i] == hx[i - t - 1]);
        }
    }
    lemma_filter_all_kept(frame);
    let chars = wire_chars(frame);
    assert(chars[t] == ':');
    assert forall|j: int| 0 <= j < t implies chars[j] != ':' by {
        assert(frame[j] == tag[j]);
    }
    lemma_first_colon_at(chars, t);
    let p = chars.skip(t + 1);
    assert forall|i: int| 0 <= i < p.len() implies p[i] == wire_chars(hx)[i] by {
        assert(p[i] == chars[t + 1 + i]);
        assert(frame[t + 1 + i] == hx[i]);
    }
    assert(p =~= wire_chars(hx));
}

/// Round trip: decoding a well-formed board response that carries the
/// bitmask of an 18-entry snapshot reproduces that snapshot, whatever
/// printable, delimiter-free tag the board put in front.
#[verifier::spinoff_prover]
#[verifier::rlimit(100)]
pub proof fn lemma_frame_round_trip(s: Seq<RelayState>, tag: Seq<u8>)
    requires
        s.len() == 18,
        forall|i: int| 0 <= i < tag.len() ==> 48 <= #[trigger] tag[i] <= 126 && tag[i] != 58,
    ensures
        decode_spec(board_frame(tag, mask_of(s))) == Ok::<Seq<RelayState>, ProtocolError>(s),
{
    let m = mask_of(s);
    let hx = hex_bytes(m as nat);
    lemma_hex_bytes_range(m as nat);
    lemma_frame_shape(tag, hx);
    let frame = board_frame(tag, m);
    let chars = wire_chars(frame);
    assert(wire_chars(hx) =~= hex_chars(m as nat));
    lemma_hex_round_trip(m as nat);
    lemma_mask_round_trip(s);
    assert(decode_spec(frame) == Ok::<Seq<RelayState>, ProtocolError>(s));
}

/// Decoding looks only at the bytes the noise filter keeps.
pub proof fn lemma_decode_ignores_noise(r1: Seq<u8>, r2: Seq<u8>)
    requires
        filter_wire(r1) == filter_wire(r2),
    ensures
        decode_spec(r1) == decode_spec(r2),
{
}

/// Inserting a noise byte outside `[48, 128]` anywhere in a raw response
/// leaves the filtered bytes, and so the decode result, unchanged.
pub proof fn lemma_filter_drops_noise(raw: Seq<u8>, k: int, b: u8)
    requires
        0 <= k <= raw.len(),
        !keeps_wire_byte(b),
    ensures
        filter_wire(raw.insert(k, b)) == filter_wire(raw),
        decode_spec(raw.insert(k, b)) == decode_spec(raw),
{
    reveal(Seq::filter);
    let pred = |x: u8| keeps_wire_byte(x);
    let a = raw.subrange(0, k);
    let c = raw.subrange(k, raw.len() as int);
    assert(raw.insert(k, b) == a.push(b) + c);
    assert(a.push(b) =~= a + seq![b]);
    Seq::<u8>::filter_distributes_over_add(a, seq![b], pred);
    Seq::<u8>::filter_distributes_over_add(a + seq![b], c, pred);
    Seq::<u8>::filter_distributes_over_add(a, c, pred);
    assert(Seq::<u8>::empty().filter(pred) =~= Seq::<u8>::empty());
    assert(seq![b].drop_last() =~= Seq::<u8>::empty());
    assert(seq![b].filter(pred) =~= Seq::<u8>::empty());
    assert((a + seq![b]).filter(pred) =~= a.filter(pred));
    assert(a + c =~= raw);
    assert(filter_wire(raw.insert(k, b)) =~= filter_wire(raw));
}

/// Decode a raw board response into a full relay snapshot.
///
/// This is the single source of truth for what the board currently
/// reports: on success the returned snapshot covers all 18 relays, relay
/// `id` being `On` iff bit `id - 1` of the transmitted hex bitmask is set.
pub fn decode_state_response(raw: &Vec<u8>) -> (r: Result<RelayStateSnapshot, ProtocolError>)
    ensures
        match r {
            Ok(snap) => snap.wf() && decode_spec(raw@) == Ok::<Seq<RelayState>, ProtocolError>(
                snap@,
            ),
            Err(e) => decode_spec(raw@) == Err::<Seq<RelayState>, ProtocolError>(e),
        },
{
    let filtered = filter_response(raw);
    let text = match bytes_to_ascii_text(&filtered) {
        Some(t) => t,
        None => {
            return Err(ProtocolError::NotAscii);
        },
    };
    let ci = match find_colon(text.as_str()) {
        Some(ci) => ci,
        None => {
            return Err(ProtocolError::MalformedFrame);
        },
    };
    match parse_hex_payload(text.as_str(), ci + 1) {
        Some(m) => Ok(snapshot_from_mask(m)),
        None => Err(ProtocolError::BadHexPayload),
    }
}

} // verus!
