//! The sizes that the network stack is configured with.

use vstd::prelude::*;

verus! {

/// How many pending connections a listener holds unless told otherwise.
pub const LISTEN_QUEUE_SIZE: usize = 512;

/// The length of the receive buffer of a pending connection, in bytes.
pub const TCP_RX_BUF_LEN: usize = 65536;

/// The length of the transmit buffer of a pending connection, in bytes.
pub const TCP_TX_BUF_LEN: usize = 65536;

} // verus!
