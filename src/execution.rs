//! What the dialer runs for a command, and the report it sends back.
use vstd::prelude::*;
use vstd::string::StringExecFns;
use vstd::utf8::{decode_utf8, valid_utf8};

use crate::message::{texts_of, Payload, PayloadModel, Report, ReportModel};

verus! {

/// What the local process facility handed back for a command that ran: the
/// exit status as text and the captured output streams.
#[derive(Debug)]
pub struct Execution {
    pub status: String,
    pub stdout: Vec<u8>,
    pub stderr: Vec<u8>,
}

/// The text that stands in all three fields of a report whose command could
/// not be started.
pub open spec fn not_started_text() -> Seq<char> {
    "Nope"@
}

/// The text that stands for a captured stream that is not valid UTF-8.
pub open spec fn not_utf8_text() -> Seq<char> {
    "<output is not UTF-8>"@
}

/// How a captured stream appears in a report.
pub open spec fn stream_text(b: Seq<u8>) -> Seq<char> {
    if valid_utf8(b) {
        decode_utf8(b)
    } else {
        not_utf8_text()
    }
}

/// Relies on `String::from_utf8`: it gives the text that the bytes encode
/// exactly when they are valid UTF-8, and an error otherwise.
#[verifier::external_body]
fn text_from_utf8(b: Vec<u8>) -> (r: Option<String>)
    ensures
        match r {
            Some(s) => valid_utf8(b@) && s@ == decode_utf8(b@),
            None => !valid_utf8(b@),
        },
{
    String::from_utf8(b).ok()
}

fn stream_string(b: Vec<u8>) -> (r: String)
    ensures
        r@ == stream_text(b@),
{
    match text_from_utf8(b) {
        Some(s) => s,
        None => String::from_str("<output is not UTF-8>"),
    }
}

/// The report for `payload`: with `None` (the command could not be started)
/// every field holds the not-started text; otherwise the status and the
/// decoded output streams.
pub open spec fn report_of(payload: PayloadModel, ran: Option<(Seq<char>, Seq<u8>, Seq<u8>)>) -> ReportModel {
    match ran {
        None => ReportModel {
            payload,
            status: not_started_text(),
            stdout: not_started_text(),
            stderr: not_started_text(),
        },
        Some((status, out, err)) => ReportModel {
            payload,
            status,
            stdout: stream_text(out),
            stderr: stream_text(err),
        },
    }
}

pub open spec fn execution_view(e: Option<Execution>) -> Option<(Seq<char>, Seq<u8>, Seq<u8>)> {
    match e {
        None => None,
        Some(x) => Some((x.status@, x.stdout@, x.stderr@)),
    }
}

/// Builds the report that answers `payload`, from what running it gave.
pub fn build_report(payload: Payload, ran: Option<Execution>) -> (r: Report)
    ensures
        r@ == report_of(payload@, execution_view(ran)),
{
    match ran {
        None => Report {
            payload,
            status: String::from_str("Nope"),
            stdout: String::from_str("Nope"),
            stderr: String::from_str("Nope"),
        },
        Some(x) => Report {
            payload,
            status: x.status,
            stdout: stream_string(x.stdout),
            stderr: stream_string(x.stderr),
        },
    }
}

pub open spec fn sudo_program() -> Seq<char> {
    "sudo"@
}

/// The program to start for a command and its arguments: an elevated
/// command runs through `sudo`, with the program as its first argument.
pub open spec fn invocation_of(p: PayloadModel) -> (Seq<char>, Seq<Seq<char>>) {
    if p.sudo {
        (sudo_program(), seq![p.command] + p.args)
    } else {
        (p.command, p.args)
    }
}

/// The program and arguments to start for `p`.
pub fn invocation(p: &Payload) -> (r: (String, Vec<String>))
    ensures
        (r.0@, texts_of(r.1@)) == invocation_of(p@),
{
    let mut args: Vec<String> = Vec::new();
    let ghost pre: Seq<Seq<char>> = Seq::empty();
    if p.sudo {
        args.push(p.command.clone());
        proof {
            pre = seq![p.command@];
        }
    }
    assert(texts_of(args@) =~= pre);
    let mut k: usize = 0;
    while k < p.args.len()
        invariant
            k <= p.args@.len(),
            texts_of(args@) == pre + texts_of(p.args@).subrange(0, k as int),
        decreases p.args@.len() - k,
    {
        let ghost before = texts_of(args@);
        args.push(p.args[k].clone());
        assert(texts_of(args@) =~= before.push(p.args@[k as int]@));
        k += 1;
        assert(texts_of(p.args@).subrange(0, k as int) =~= texts_of(p.args@).subrange(0, k - 1).push(p.args@[k - 1]@));
    }
    assert(texts_of(p.args@).subrange(0, p.args@.len() as int) =~= texts_of(p.args@));
    if p.sudo {
        (String::from_str("sudo"), args)
    } else {
        assert(pre + texts_of(p.args@) =~= texts_of(p.args@));
        (p.command.clone(), args)
    }
}

} // verus!
