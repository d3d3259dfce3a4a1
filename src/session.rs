//! The decisions of both serving loops and of the dialer's reconnect loop.
//!
//! The loops themselves (waiting on the transport, the operator and the
//! clock) belong to the program around this library: it hands each event to
//! these functions and carries out what they return.
use vstd::prelude::*;

use crate::codec::{
    decode_payload, decode_report, lemma_payload_round_trip, lemma_report_round_trip, payload_text,
    report_text,
};
use crate::execution::report_of;
use crate::message::{Payload, PayloadModel, Report, ReportModel};

verus! {

/// How long the dialer waits after a failed connect before it tries again.
pub const RETRY_DELAY_MS: u64 = 1000;

/// One thing that the inbound half of a connection gave.
#[derive(Debug)]
pub enum Inbound {
    /// A text message.
    Text(String),
    /// A message of another kind (binary, ping, ...).
    Other,
    /// A read error that left the connection open.
    Failed,
    /// The connection is closed.
    Closed,
}

/// The mathematical value of an [`Inbound`] event.
pub ghost enum Event {
    Text(Seq<char>),
    Other,
    Failed,
    Closed,
}

impl View for Inbound {
    type V = Event;

    open spec fn view(&self) -> Event {
        match self {
            Inbound::Text(t) => Event::Text(t@),
            Inbound::Other => Event::Other,
            Inbound::Failed => Event::Failed,
            Inbound::Closed => Event::Closed,
        }
    }
}

/// The command that a message carries, if it is one.
pub open spec fn command_in(t: Seq<char>) -> Option<PayloadModel> {
    if exists|p: PayloadModel| payload_text(p) == t {
        Some(choose|p: PayloadModel| payload_text(p) == t)
    } else {
        None
    }
}

/// The report that a message carries, if it is one.
pub open spec fn report_in(t: Seq<char>) -> Option<ReportModel> {
    if exists|m: ReportModel| report_text(m) == t {
        Some(choose|m: ReportModel| report_text(m) == t)
    } else {
        None
    }
}

/// What the dialer does with one inbound event.
#[derive(Debug)]
pub enum DialerStep {
    /// Run this command in a task of its own and send its report.
    Dispatch(Payload),
    /// Drop the event and read the next one.
    Skip,
    /// The session is over: go back to connecting.
    Reconnect,
}

/// The dialer's decision on one event: a command is dispatched, a closed
/// connection ends the session, and anything else (a malformed or foreign
/// message, a read error) is skipped without ending it.
pub fn dialer_step(m: Inbound) -> (r: DialerStep)
    ensures
        match m@ {
            Event::Text(t) => match command_in(t) {
                Some(p) => r matches DialerStep::Dispatch(q) && q@ == p,
                None => r is Skip,
            },
            Event::Closed => r is Reconnect,
            _ => r is Skip,
        },
{
    match m {
        Inbound::Text(t) => match decode_payload(t.as_str()) {
            Some(p) => {
                proof {
                    let q = choose|q: PayloadModel| payload_text(q) == t@;
                    lemma_payload_round_trip(p@, q);
                }
                DialerStep::Dispatch(p)
            },
            None => DialerStep::Skip,
        },
        Inbound::Closed => DialerStep::Reconnect,
        _ => DialerStep::Skip,
    }
}

/// The listener's background wait: the report that the one awaited event
/// carries, if any. Anything else is dropped.
pub fn listener_receive(m: Inbound) -> (r: Option<Report>)
    ensures
        match m@ {
            Event::Text(t) => match report_in(t) {
                Some(x) => r matches Some(y) && y@ == x,
                None => r is None,
            },
            _ => r is None,
        },
{
    match m {
        Inbound::Text(t) => match decode_report(t.as_str()) {
            Some(x) => {
                proof {
                    let y = choose|y: ReportModel| report_text(y) == t@;
                    lemma_report_round_trip(x@, y);
                }
                Some(x)
            },
            None => None,
        },
        _ => None,
    }
}

/// The commands that the dialer dispatches for a session's events, in order.
pub open spec fn dispatched(es: Seq<Event>) -> Seq<PayloadModel>
    decreases es.len(),
{
    if es.len() == 0 {
        Seq::empty()
    } else {
        let before = dispatched(es.drop_last());
        match es.last() {
            Event::Text(t) => match command_in(t) {
                Some(p) => before.push(p),
                None => before,
            },
            _ => before,
        }
    }
}

/// The messages that carry `cmds`, in order.
pub open spec fn command_messages(cmds: Seq<PayloadModel>) -> Seq<Event> {
    cmds.map_values(|c: PayloadModel| Event::Text(payload_text(c)))
}

/// A session that receives the messages of `cmds` dispatches each of those
/// commands exactly once, in the order received: none is dropped or doubled,
/// and the report built for each dispatched command, whatever running it
/// gave, answers that command.
pub proof fn lemma_each_command_dispatched_once(cmds: Seq<PayloadModel>)
    ensures
        dispatched(command_messages(cmds)) == cmds,
        forall|i: int, ran: Option<(Seq<char>, Seq<u8>, Seq<u8>)>|
            0 <= i < cmds.len() ==> #[trigger] report_of(
                dispatched(command_messages(cmds))[i],
                ran,
            ).payload == cmds[i],
    decreases cmds.len(),
{
    let es = command_messages(cmds);
    if cmds.len() > 0 {
        let last = cmds.last();
        assert(es.drop_last() =~= command_messages(cmds.drop_last()));
        lemma_each_command_dispatched_once(cmds.drop_last());
        let q = choose|q: PayloadModel| payload_text(q) == payload_text(last);
        lemma_payload_round_trip(last, q);
        assert(cmds.drop_last().push(last) =~= cmds);
    }
}

/// A message that is no command, wherever it arrives among a session's
/// events, is dropped and leaves the commands dispatched for the other
/// events as they were.
pub proof fn lemma_malformed_skipped(es: Seq<Event>, i: int, t: Seq<char>)
    requires
        0 <= i <= es.len(),
        forall|p: PayloadModel| payload_text(p) != t,
    ensures
        dispatched(es.insert(i, Event::Text(t))) == dispatched(es),
    decreases es.len(),
{
    let fs = es.insert(i, Event::Text(t));
    if i == es.len() {
        assert(fs.drop_last() =~= es);
    } else {
        assert(fs.drop_last() =~= es.drop_last().insert(i, Event::Text(t)));
        lemma_malformed_skipped(es.drop_last(), i, t);
        assert(fs.last() == es.last());
    }
}

/// What the dialer does after an attempt to connect.
#[derive(Debug)]
pub enum ConnectStep {
    /// Serve the new session.
    Serve,
    /// Wait this many milliseconds, then try again.
    RetryAfterMs(u64),
}

/// The dialer's sole retry rule: a failed connect is tried again after
/// [`RETRY_DELAY_MS`], for ever; a successful one is served.
pub fn after_connect(connected: bool) -> (r: ConnectStep)
    ensures
        connected ==> r is Serve,
        !connected ==> r == ConnectStep::RetryAfterMs(RETRY_DELAY_MS),
{
    if connected {
        ConnectStep::Serve
    } else {
        ConnectStep::RetryAfterMs(RETRY_DELAY_MS)
    }
}

} // verus!
