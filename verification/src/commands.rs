//! The two commands that the host application can invoke.
//!
//! Neither takes an argument or returns more than what is to be sent. The
//! host carries out what a command returns and treats a refused event as the
//! failure of that call.

use crate::endpoint::{local_endpoint, Endpoint};
use crate::event::{ping_event, Event};
use crate::manager::{action_views, Action, ConnectionManager, RETRY_DELAY_SECS};
use crate::model::{activated, activation};
use vstd::prelude::*;

verus! {

/// The ping command: the one event that is to go to the sink at once. The
/// command reads and changes no state, so it does the same whatever a
/// listener is doing.
pub fn ping_pong() -> (event: Event)
    ensures
        event@ == ping_event(),
{
    Event::ping()
}

/// The command that starts a listener: activates a connection manager for
/// the remote source on this machine, with the usual delay between attempts.
/// Returns the manager and its first actions.
pub fn start_kanata_listener() -> (result: (ConnectionManager, Vec<Action>))
    ensures
        result.0@ == activated(local_endpoint(), RETRY_DELAY_SECS),
        result.0@.wf(),
        action_views(result.1@) == activation(local_endpoint()),
{
    ConnectionManager::activate(Endpoint::local(), RETRY_DELAY_SECS)
}

} // verus!
