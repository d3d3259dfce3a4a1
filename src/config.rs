//! Reading the process's command-line arguments.
use vstd::prelude::*;
use vstd::string::StringExecFns;

use crate::message::texts_of;
use crate::text::chars_of;
use crate::{Runner, RunnerMode};

verus! {

/// What the arguments ask for.
#[derive(Debug)]
pub enum Invocation {
    /// Show the usage text and stop.
    Help,
    /// Run in `mode` against the address `ip` (still text) and `port`.
    Run { mode: RunnerMode, ip: String, port: u16 },
}

/// Why the arguments were refused.
#[derive(Debug, Clone, Copy, PartialEq, Eq)]
pub enum ArgsError {
    /// `--ip` or `--port` stands last, with no value after it.
    MissingValue,
    /// The port is not a decimal number from 0 to 65535.
    InvalidPort,
}

/// The arguments read so far.
pub ghost enum ArgScan {
    Going { runner: Runner, debug: bool, ip: Seq<char>, port: Seq<char> },
    Help,
    Missing,
}

pub open spec fn is_ip_flag(a: Seq<char>) -> bool {
    a == "--ip"@ || a == "-i"@ || a == "i"@
}

pub open spec fn is_port_flag(a: Seq<char>) -> bool {
    a == "--port"@ || a == "-p"@ || a == "p"@
}

/// The effect of the argument at `i`. Every argument is looked at, values
/// included; a flag given twice counts with its last value.
pub open spec fn scan_step(args: Seq<Seq<char>>, i: int, st: ArgScan) -> ArgScan {
    match st {
        ArgScan::Going { runner, debug, ip, port } => {
            let a = args[i];
            if a == "--server"@ || a == "-sv"@ {
                ArgScan::Going { runner: Runner::Server, debug, ip, port }
            } else if a == "--client"@ || a == "-cl"@ {
                ArgScan::Going { runner: Runner::Client, debug, ip, port }
            } else if a == "--debug"@ || a == "-d"@ {
                ArgScan::Going { runner, debug: true, ip, port }
            } else if is_ip_flag(a) {
                if i + 1 < args.len() {
                    ArgScan::Going { runner, debug, ip: args[i + 1], port }
                } else {
                    ArgScan::Missing
                }
            } else if is_port_flag(a) {
                if i + 1 < args.len() {
                    ArgScan::Going { runner, debug, ip, port: args[i + 1] }
                } else {
                    ArgScan::Missing
                }
            } else if a == "--help"@ || a == "-h"@ {
                ArgScan::Help
            } else {
                st
            }
        },
        _ => st,
    }
}

/// The state after the first `n` arguments; the defaults are the listener
/// role, no debug output, `127.0.0.1` and port `3444`.
pub open spec fn scan_args(args: Seq<Seq<char>>, n: int) -> ArgScan
    decreases n,
{
    if n <= 0 {
        ArgScan::Going { runner: Runner::Server, debug: false, ip: "127.0.0.1"@, port: "3444"@ }
    } else {
        scan_step(args, n - 1, scan_args(args, n - 1))
    }
}

pub open spec fn is_digit(c: char) -> bool {
    48 <= c as u32 <= 57
}

pub open spec fn decimal_value(s: Seq<char>) -> int
    decreases s.len(),
{
    if s.len() == 0 {
        0
    } else {
        decimal_value(s.drop_last()) * 10 + (s.last() as u32 - 48)
    }
}

/// The digits of a number text: what follows an optional `+`.
pub open spec fn unsigned_part(s: Seq<char>) -> Seq<char> {
    if s.len() > 0 && s[0] == '+' {
        s.drop_first()
    } else {
        s
    }
}

pub open spec fn all_digits(d: Seq<char>) -> bool {
    forall|i: int| 0 <= i < d.len() ==> is_digit(#[trigger] d[i])
}

/// The port that a text names: decimal digits, after an optional `+`, whose
/// value fits in 16 bits.
pub open spec fn port_value(s: Seq<char>) -> Option<u16> {
    let d = unsigned_part(s);
    if d.len() > 0 && all_digits(d) && decimal_value(d) <= 65535 {
        Some(decimal_value(d) as u16)
    } else {
        None
    }
}

proof fn lemma_decimal_prefix(d: Seq<char>, k: int)
    requires
        0 <= k <= d.len(),
        forall|i: int| 0 <= i < d.len() ==> is_digit(#[trigger] d[i]),
    ensures
        0 <= decimal_value(d.subrange(0, k)) <= decimal_value(d),
    decreases d.len(),
{
    if k == d.len() {
        assert(d.subrange(0, k) =~= d);
        if d.len() > 0 {
            lemma_decimal_prefix(d.drop_last(), 0);
            assert(is_digit(d[d.len() - 1]));
        }
    } else {
        let e = d.drop_last();
        assert forall|i: int| 0 <= i < e.len() implies is_digit(#[trigger] e[i]) by {
            assert(e[i] == d[i]);
        }
        lemma_decimal_prefix(e, k);
        assert(e.subrange(0, k) =~= d.subrange(0, k));
        lemma_decimal_prefix(e, e.len() as int);
        assert(e.subrange(0, e.len() as int) =~= e);
        assert(is_digit(d[d.len() - 1]));
    }
}

/// Reads a port number.
pub fn parse_port(s: &str) -> (r: Option<u16>)
    ensures
        r == port_value(s@),
{
    let cs = chars_of(s);
    let start: usize = if cs.len() > 0 && cs[0] == '+' {
        1
    } else {
        0
    };
    let ghost d = cs@.subrange(start as int, cs@.len() as int);
    let ghost d2 = unsigned_part(s@);
    assert(d =~= d2);
    if start == cs.len() {
        return None;
    }
    let mut v: u32 = 0;
    let mut k: usize = start;
    while k < cs.len()
        invariant
            start <= k <= cs@.len(),
            d == cs@.subrange(start as int, cs@.len() as int),
            d == d2,
            cs@ == s@,
            d2 == unsigned_part(s@),
            v as int == decimal_value(d.subrange(0, k - start)),
            v <= 65535,
            forall|i: int| 0 <= i < k - start ==> is_digit(#[trigger] d[i]),
        decreases cs@.len() - k,
    {
        let c = cs[k];
        assert(c == d[k - start]);
        if !(48 <= c as u32 && c as u32 <= 57) {
            assert(!is_digit(d[k - start]));
            assert(!all_digits(d));
            return None;
        }
        assert(d.subrange(0, k + 1 - start).drop_last() =~= d.subrange(0, k - start));
        assert(d.subrange(0, k + 1 - start).last() == c);
        let next: u32 = v * 10 + (c as u32 - 48);
        assert(next as int == decimal_value(d.subrange(0, k + 1 - start)));
        k += 1;
        if next > 65535 {
            proof {
                if all_digits(d) {
                    lemma_decimal_prefix(d, k - start);
                }
            }
            return None;
        }
        v = next;
    }
    assert(d.subrange(0, d.len() as int) =~= d);
    Some(v as u16)
}

fn is_text(a: &String, lit: &str) -> (r: bool)
    ensures
        r == (a@ == lit@),
{
    *a == String::from_str(lit)
}

/// Reads the arguments of the process (the program's own name included, as
/// it is looked at like any other).
pub fn parse_args(args: &Vec<String>) -> (r: Result<Invocation, ArgsError>)
    ensures
        match scan_args(texts_of(args@), args@.len() as int) {
            ArgScan::Help => r matches Ok(Invocation::Help),
            ArgScan::Missing => r == Err::<Invocation, ArgsError>(ArgsError::MissingValue),
            ArgScan::Going { runner, debug, ip, port } => match port_value(port) {
                Some(n) => r matches Ok(Invocation::Run { mode, ip: i, port: p }) && mode
                    == RunnerMode::State(runner, debug) && i@ == ip && p == n,
                None => r == Err::<Invocation, ArgsError>(ArgsError::InvalidPort),
            },
        },
{
    let ghost t = texts_of(args@);
    let mut runner = Runner::Server;
    let mut debug = false;
    let mut ip = String::from_str("127.0.0.1");
    let mut port = String::from_str("3444");
    let mut k: usize = 0;
    while k < args.len()
        invariant
            k <= args@.len(),
            t == texts_of(args@),
            scan_args(t, k as int) == (ArgScan::Going { runner, debug, ip: ip@, port: port@ }),
        decreases args@.len() - k,
    {
        let a = &args[k];
        assert(a@ == t[k as int]);
        if is_text(a, "--server") || is_text(a, "-sv") {
            runner = Runner::Server;
        } else if is_text(a, "--client") || is_text(a, "-cl") {
            runner = Runner::Client;
        } else if is_text(a, "--debug") || is_text(a, "-d") {
            debug = true;
        } else if is_text(a, "--ip") || is_text(a, "-i") || is_text(a, "i") {
            if k + 1 < args.len() {
                ip = args[k + 1].clone();
            } else {
                proof {
                    lemma_scan_stays(t, k as int + 1, args@.len() as int);
                }
                return Err(ArgsError::MissingValue);
            }
        } else if is_text(a, "--port") || is_text(a, "-p") || is_text(a, "p") {
            if k + 1 < args.len() {
                port = args[k + 1].clone();
            } else {
                proof {
                    lemma_scan_stays(t, k as int + 1, args@.len() as int);
                }
                return Err(ArgsError::MissingValue);
            }
        } else if is_text(a, "--help") || is_text(a, "-h") {
            proof {
                lemma_scan_stays(t, k as int + 1, args@.len() as int);
            }
            return Ok(Invocation::Help);
        }
        k += 1;
    }
    match parse_port(port.as_str()) {
        Some(n) => Ok(Invocation::Run { mode: RunnerMode::State(runner, debug), ip, port: n }),
        None => Err(ArgsError::InvalidPort),
    }
}

/// Once the arguments have asked for help or lack a value, later ones change
/// nothing.
proof fn lemma_scan_stays(args: Seq<Seq<char>>, m: int, n: int)
    requires
        0 <= m <= n,
        !(scan_args(args, m) is Going),
    ensures
        scan_args(args, n) == scan_args(args, m),
    decreases n - m,
{
    if n > m {
        lemma_scan_stays(args, m, n - 1);
    }
}

} // verus!
