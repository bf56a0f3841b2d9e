//! Routing of inbound control messages. A message addressed to `/eval`
//! carries patch text as its first argument; everything else is reported and
//! dropped. The transport and the wire format live outside; this module
//! decides, for an already decoded packet, what is to be done with it.

use vstd::prelude::*;
use crate::text::str_eq;

verus! {

/// One decoded argument of a control message: patch text, or anything else.
pub enum ControlValue {
    Text(String),
    Other,
}

/// One decoded control packet.
pub enum ControlPacket {
    Message { addr: String, args: Option<Vec<ControlValue>> },
    Bundle,
}

/// What is to be done with a packet.
pub enum Route {
    /// Evaluate the text; `extra_ignored` notes that further arguments
    /// beyond the first were present and are ignored with a warning.
    Eval { text: String, extra_ignored: bool },
    /// An `/eval` message without an argument list: dropped silently.
    MissingArgs,
    /// An `/eval` message with an empty argument list: noted and dropped.
    NoArgs,
    /// An `/eval` message whose first argument is not text: warned about.
    NotText,
    /// A message to some other address: noted and dropped.
    OtherAddress,
    /// A bundle: noted and dropped.
    Bundle,
}

/// Decides what to do with a decoded packet: only a message to `/eval`
/// whose first argument is text leads to an evaluation, and its text is
/// handed back exactly; everything else is dropped.
pub fn route_packet(p: &ControlPacket) -> (r: Route)
    ensures
        p is Bundle ==> r is Bundle,
        p matches ControlPacket::Message { addr, args } ==> {
            &&& addr@ != "/eval"@ ==> r is OtherAddress
            &&& addr@ == "/eval"@ ==> match args {
                Option::None => r is MissingArgs,
                Option::Some(a) => if a@.len() == 0 {
                    r is NoArgs
                } else {
                    match a@[0] {
                        ControlValue::Text(s) => r matches Route::Eval { text, extra_ignored }
                            && text@ == s@ && extra_ignored == (a@.len() > 1),
                        ControlValue::Other => r is NotText,
                    }
                },
            }
        },
{
    match p {
        ControlPacket::Bundle => Route::Bundle,
        ControlPacket::Message { addr, args } => {
            if !str_eq(addr.as_str(), "/eval") {
                return Route::OtherAddress;
            }
            match args {
                None => Route::MissingArgs,
                Some(a) => {
                    if a.len() == 0 {
                        return Route::NoArgs;
                    }
                    match &a[0] {
                        ControlValue::Text(s) => Route::Eval {
                            text: s.clone(),
                            extra_ignored: a.len() > 1,
                        },
                        ControlValue::Other => Route::NotText,
                    }
                },
            }
        },
    }
}

} // verus!
