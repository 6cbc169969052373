//! Control of a bank of 18 remotely addressable relays behind a
//! line-oriented serial protocol.
//!
//! The crate is organised around three pieces:
//! - [`range`]: parsing of user-supplied relay range expressions such as
//!   `"1-3,7,9-11"` into validated, sorted, deduplicated id lists;
//! - [`codec`]: the wire protocol, encoding a relay snapshot as an ASCII
//!   hex bitmask command and decoding the board's `tag:hex` responses;
//! - [`relay`]: the in-memory relay state model and the connection state
//!   machine built on an abstract [`communication::ByteChannel`].

pub mod codec;
pub mod communication;
pub mod range;
pub mod relay;

pub use codec::{
    decode_state_response, encode_bitmask, encode_get_command, encode_set_command, ProtocolError,
};
pub use communication::{ByteChannel, ChannelError, ScriptedChannel};
pub use range::{parse_range, RangeError};
pub use relay::{
    ConnectionError, LinkState, RelayArray, RelayError, RelayState, RelayStateSnapshot, RELAY_COUNT,
    RELAY_MAX, RELAY_MIN,
};
