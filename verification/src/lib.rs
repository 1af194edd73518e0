//! A verified decoder, encoder and command dispatcher for a RESP-style
//! wire protocol, together with the decision logic of a per-connection
//! read/decode/dispatch/write loop.

pub mod connection;
pub mod dispatch;
pub mod encode;
pub mod parser;
pub mod util;

use vstd::prelude::*;

verus! {

} // verus!
