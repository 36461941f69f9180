//! The per-message step of a connection: a decoded value becomes a reply.
//! Command-parse failures and unimplemented commands are converted into
//! error replies, so the connection goes on serving later requests; the
//! I/O loop around this step only moves bytes.
use vstd::prelude::*;

use crate::command::{RedisCmd, spec_try_from, spec_apply, err_text};
use crate::store::Store;
use crate::types::{RespValue, SpecValue};

verus! {

/// Turns one decoded request into the reply to send, applying the command
/// to the store under the caller's exclusive access. A request that parses
/// and executes yields its command's reply; a request that fails to parse
/// yields an error reply carrying the parse error's text; an unimplemented
/// command yields the `NOT_IMPLEMENTED` error reply. The store changes
/// exactly as the command demands, and not at all on a failure.
pub fn process_value(v: RespValue, storage: &mut Store) -> (r: RespValue)
    requires
        old(storage).wf(),
    ensures
        final(storage).wf(),
        (match spec_try_from(v@) {
            Err(e) => {
                &&& final(storage)@ == old(storage)@
                &&& final(storage).keys_in_order() == old(storage).keys_in_order()
                &&& r@ == SpecValue::Error(err_text(e), Option::None)
            },
            Ok(c) => ({
                let (rr, nm, nks) = spec_apply(c, old(storage)@, old(storage).keys_in_order());
                &&& final(storage)@ == nm
                &&& final(storage).keys_in_order() == nks
                &&& (match rr {
                    Ok(sv) => r@ == sv,
                    Err(u) => r@ == SpecValue::Error("NOT_IMPLEMENTED"@, Option::None),
                })
            }),
        }),
{
    match RedisCmd::try_from(v) {
        Ok(cmd) => match cmd.execute(storage) {
            Ok(reply) => reply,
            Err(_) => RespValue::Error("NOT_IMPLEMENTED".to_owned(), None),
        },
        Err(e) => RespValue::Error(e.message().to_owned(), None),
    }
}

} // verus!
