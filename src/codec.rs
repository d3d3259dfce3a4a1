//! The wire format of the protocol.
//!
//! Each message is one compact JSON object whose keys come in alphabetical
//! order: a command is `{"args":[..],"command":"..","sudo":..,"user":".."}`
//! and a report is `{"payload":{..},"status":"..","stderr":"..","stdout":".."}`.
//! Strings escape `"`, `\` and the control characters below U+0020 (the five
//! with a short form use it, the others `\u00xx` with lower-case hex digits);
//! every other character stands as itself.
//!
//! Neither message carries a tag: the listener always reads reports and the
//! dialer always reads commands. A text is accepted only in exactly the form
//! that the encoder writes, so decoding is the inverse of encoding.
use vstd::prelude::*;

use crate::message::{texts_of, Payload, PayloadModel, Report, ReportModel};
use crate::text::{chars_of, push_char, string_of};

verus! {

pub open spec fn hex_digit(n: int) -> char {
    if n < 10 {
        ((n + 48) as u8) as char
    } else {
        ((n + 87) as u8) as char
    }
}

pub open spec fn is_hex_lower(c: char) -> bool {
    (48 <= c as u32 <= 57) || (97 <= c as u32 <= 102)
}

pub open spec fn hex_value(c: char) -> int {
    if c as u32 <= 57 {
        c as u32 - 48
    } else {
        c as u32 - 87
    }
}

/// The letter of the two-character escape of `c`, where it has one.
pub open spec fn short_escape(c: char) -> Option<char> {
    if c == '"' {
        Some('"')
    } else if c == '\\' {
        Some('\\')
    } else if c == '\u{8}' {
        Some('b')
    } else if c == '\u{c}' {
        Some('f')
    } else if c == '\n' {
        Some('n')
    } else if c == '\r' {
        Some('r')
    } else if c == '\t' {
        Some('t')
    } else {
        None
    }
}

/// The character that the two-character escape ending in `e` stands for.
pub open spec fn short_unescape(e: char) -> Option<char> {
    if e == '"' {
        Some('"')
    } else if e == '\\' {
        Some('\\')
    } else if e == 'b' {
        Some('\u{8}')
    } else if e == 'f' {
        Some('\u{c}')
    } else if e == 'n' {
        Some('\n')
    } else if e == 'r' {
        Some('\r')
    } else if e == 't' {
        Some('\t')
    } else {
        None
    }
}

/// How one character of a string is written inside the quotes.
pub open spec fn escape_char(c: char) -> Seq<char> {
    match short_escape(c) {
        Some(e) => seq!['\\', e],
        None => if (c as u32) < 32 {
            seq!['\\', 'u', '0', '0', hex_digit((c as u32) as int / 16), hex_digit((c as u32) as int % 16)]
        } else {
            seq![c]
        },
    }
}

pub open spec fn escape(s: Seq<char>) -> Seq<char>
    decreases s.len(),
{
    if s.len() == 0 {
        Seq::empty()
    } else {
        escape_char(s[0]) + escape(s.drop_first())
    }
}

/// A string literal: the escaped characters between two quotes.
pub open spec fn quoted(s: Seq<char>) -> Seq<char> {
    seq!['"'] + escape(s) + seq!['"']
}

/// The items after the first one of a list, each preceded by a comma.
pub open spec fn list_tail(items: Seq<Seq<char>>) -> Seq<char>
    decreases items.len(),
{
    if items.len() == 0 {
        Seq::empty()
    } else {
        seq![','] + quoted(items[0]) + list_tail(items.drop_first())
    }
}

/// A list of strings between brackets, separated by commas.
pub open spec fn array_text(items: Seq<Seq<char>>) -> Seq<char> {
    if items.len() == 0 {
        seq!['[', ']']
    } else {
        seq!['['] + quoted(items[0]) + list_tail(items.drop_first()) + seq![']']
    }
}

pub open spec fn bool_text(b: bool) -> Seq<char> {
    if b {
        seq!['t', 'r', 'u', 'e']
    } else {
        seq!['f', 'a', 'l', 's', 'e']
    }
}

pub open spec fn key_args() -> Seq<char> {
    seq!['{', '"', 'a', 'r', 'g', 's', '"', ':']
}

pub open spec fn key_command() -> Seq<char> {
    seq![',', '"', 'c', 'o', 'm', 'm', 'a', 'n', 'd', '"', ':']
}

pub open spec fn key_sudo() -> Seq<char> {
    seq![',', '"', 's', 'u', 'd', 'o', '"', ':']
}

pub open spec fn key_user() -> Seq<char> {
    seq![',', '"', 'u', 's', 'e', 'r', '"', ':']
}

pub open spec fn key_payload() -> Seq<char> {
    seq!['{', '"', 'p', 'a', 'y', 'l', 'o', 'a', 'd', '"', ':']
}

pub open spec fn key_status() -> Seq<char> {
    seq![',', '"', 's', 't', 'a', 't', 'u', 's', '"', ':']
}

pub open spec fn key_stderr() -> Seq<char> {
    seq![',', '"', 's', 't', 'd', 'e', 'r', 'r', '"', ':']
}

pub open spec fn key_stdout() -> Seq<char> {
    seq![',', '"', 's', 't', 'd', 'o', 'u', 't', '"', ':']
}

/// The message that carries a command.
pub open spec fn payload_text(p: PayloadModel) -> Seq<char> {
    key_args() + (array_text(p.args) + (key_command() + (quoted(p.command) + (key_sudo() + (
    bool_text(p.sudo) + (key_user() + (quoted(p.user) + seq!['}'])))))))
}

/// The message that carries a report.
pub open spec fn report_text(r: ReportModel) -> Seq<char> {
    key_payload() + (payload_text(r.payload) + (key_status() + (quoted(r.status) + (key_stderr()
        + (quoted(r.stderr) + (key_stdout() + (quoted(r.stdout) + seq!['}'])))))))
}

// ---- reading ----

/// What follows `lit` in `t`, where `t` starts with it.
pub open spec fn expect(t: Seq<char>, lit: Seq<char>) -> Option<Seq<char>> {
    if lit.len() <= t.len() && t.subrange(0, lit.len() as int) == lit {
        Some(t.subrange(lit.len() as int, t.len() as int))
    } else {
        None
    }
}

pub open spec fn code_char(v: int) -> char {
    (v as u8) as char
}

/// The character that the first escape unit of `t` stands for, and the
/// number of characters of that unit.
pub open spec fn unescape_unit(t: Seq<char>) -> Option<(char, int)> {
    if t.len() == 0 || t[0] == '"' {
        None
    } else if t[0] == '\\' {
        if t.len() < 2 {
            None
        } else {
            match short_unescape(t[1]) {
                Some(c) => Some((c, 2)),
                None => {
                    if t[1] == 'u' && t.len() >= 6 && t[2] == '0' && t[3] == '0' && (t[4] == '0'
                        || t[4] == '1') && is_hex_lower(t[5]) && short_escape(
                        code_char(16 * hex_value(t[4]) + hex_value(t[5])),
                    ) is None {
                        Some((code_char(16 * hex_value(t[4]) + hex_value(t[5])), 6))
                    } else {
                        None
                    }
                },
            }
        }
    } else if (t[0] as u32) < 32 {
        None
    } else {
        Some((t[0], 1))
    }
}

/// Reads the inside of a string literal up to its closing quote: the
/// characters it stands for and what follows the quote.
pub open spec fn parse_body(t: Seq<char>) -> Option<(Seq<char>, Seq<char>)>
    decreases t.len(),
{
    if t.len() == 0 {
        None
    } else if t[0] == '"' {
        Some((Seq::empty(), t.drop_first()))
    } else {
        match unescape_unit(t) {
            Some((c, n)) => if 1 <= n <= t.len() {
                match parse_body(t.subrange(n, t.len() as int)) {
                    Some((s, r)) => Some((seq![c] + s, r)),
                    None => None,
                }
            } else {
                None
            },
            None => None,
        }
    }
}

pub open spec fn parse_quoted(t: Seq<char>) -> Option<(Seq<char>, Seq<char>)> {
    if t.len() > 0 && t[0] == '"' {
        parse_body(t.drop_first())
    } else {
        None
    }
}

/// Reads `,"..."` items up to the closing bracket.
pub open spec fn parse_more(t: Seq<char>) -> Option<(Seq<Seq<char>>, Seq<char>)>
    decreases t.len(),
{
    if t.len() > 0 && t[0] == ']' {
        Some((Seq::empty(), t.drop_first()))
    } else if t.len() > 0 && t[0] == ',' {
        match parse_quoted(t.drop_first()) {
            Some((s, r)) => if r.len() < t.len() {
                match parse_more(r) {
                    Some((items, r2)) => Some((seq![s] + items, r2)),
                    None => None,
                }
            } else {
                None
            },
            None => None,
        }
    } else {
        None
    }
}

pub open spec fn parse_array(t: Seq<char>) -> Option<(Seq<Seq<char>>, Seq<char>)> {
    if t.len() >= 2 && t[0] == '[' && t[1] == ']' {
        Some((Seq::empty(), t.subrange(2, t.len() as int)))
    } else if t.len() > 0 && t[0] == '[' {
        match parse_quoted(t.drop_first()) {
            Some((s, r)) => match parse_more(r) {
                Some((items, r2)) => Some((seq![s] + items, r2)),
                None => None,
            },
            None => None,
        }
    } else {
        None
    }
}

pub open spec fn parse_bool(t: Seq<char>) -> Option<(bool, Seq<char>)> {
    match expect(t, bool_text(true)) {
        Some(r) => Some((true, r)),
        None => match expect(t, bool_text(false)) {
            Some(r) => Some((false, r)),
            None => None,
        },
    }
}

pub open spec fn parse_payload(t: Seq<char>) -> Option<(PayloadModel, Seq<char>)> {
    match expect(t, key_args()) {
        None => None,
        Some(t1) => match parse_array(t1) {
            None => None,
            Some((args, t2)) => match expect(t2, key_command()) {
                None => None,
                Some(t3) => match parse_quoted(t3) {
                    None => None,
                    Some((command, t4)) => match expect(t4, key_sudo()) {
                        None => None,
                        Some(t5) => match parse_bool(t5) {
                            None => None,
                            Some((sudo, t6)) => match expect(t6, key_user()) {
                                None => None,
                                Some(t7) => match parse_quoted(t7) {
                                    None => None,
                                    Some((user, t8)) => match expect(t8, seq!['}']) {
                                        None => None,
                                        Some(t9) => Some(
                                            (PayloadModel { sudo, user, command, args }, t9),
                                        ),
                                    },
                                },
                            },
                        },
                    },
                },
            },
        },
    }
}

pub open spec fn parse_report(t: Seq<char>) -> Option<(ReportModel, Seq<char>)> {
    match expect(t, key_payload()) {
        None => None,
        Some(t1) => match parse_payload(t1) {
            None => None,
            Some((payload, t2)) => match expect(t2, key_status()) {
                None => None,
                Some(t3) => match parse_quoted(t3) {
                    None => None,
                    Some((status, t4)) => match expect(t4, key_stderr()) {
                        None => None,
                        Some(t5) => match parse_quoted(t5) {
                            None => None,
                            Some((stderr, t6)) => match expect(t6, key_stdout()) {
                                None => None,
                                Some(t7) => match parse_quoted(t7) {
                                    None => None,
                                    Some((stdout, t8)) => match expect(t8, seq!['}']) {
                                        None => None,
                                        Some(t9) => Some(
                                            (ReportModel { payload, status, stdout, stderr }, t9),
                                        ),
                                    },
                                },
                            },
                        },
                    },
                },
            },
        },
    }
}

// ---- the inverse laws ----

proof fn lemma_expect(lit: Seq<char>, r: Seq<char>)
    ensures
        expect(lit + r, lit) == Some(r),
{
    assert((lit + r).subrange(0, lit.len() as int) =~= lit);
    assert((lit + r).subrange(lit.len() as int, (lit + r).len() as int) =~= r);
}

proof fn lemma_unescape_char(c: char, r: Seq<char>)
    ensures
        escape_char(c).len() >= 1,
        escape_char(c)[0] != '"',
        unescape_unit(escape_char(c) + r) == Some((c, escape_char(c).len() as int)),
{
    let t = escape_char(c) + r;
    let v = (c as u32) as int;
    if short_escape(c) is None && v < 32 {
        assert(hex_value(hex_digit(v / 16)) == v / 16);
        assert(hex_value(hex_digit(v % 16)) == v % 16);
        assert(code_char(v) == c);
    }
}

proof fn lemma_parse_body(s: Seq<char>, r: Seq<char>)
    ensures
        parse_body(escape(s) + seq!['"'] + r) == Some((s, r)),
    decreases s.len(),
{
    let t = escape(s) + seq!['"'] + r;
    if s.len() == 0 {
        assert(t =~= seq!['"'] + r);
        assert(t.drop_first() =~= r);
    } else {
        let e = escape_char(s[0]);
        let rest = escape(s.drop_first()) + seq!['"'] + r;
        assert(t =~= e + rest);
        lemma_unescape_char(s[0], rest);
        assert(t.subrange(e.len() as int, t.len() as int) =~= rest);
        lemma_parse_body(s.drop_first(), r);
        assert(seq![s[0]] + s.drop_first() =~= s);
    }
}

proof fn lemma_parse_quoted(s: Seq<char>, r: Seq<char>)
    ensures
        parse_quoted(quoted(s) + r) == Some((s, r)),
{
    let t = quoted(s) + r;
    assert(t.drop_first() =~= escape(s) + seq!['"'] + r);
    lemma_parse_body(s, r);
}

proof fn lemma_parse_more(items: Seq<Seq<char>>, r: Seq<char>)
    ensures
        parse_more(list_tail(items) + seq![']'] + r) == Some((items, r)),
    decreases items.len(),
{
    let t = list_tail(items) + seq![']'] + r;
    if items.len() == 0 {
        assert(t =~= seq![']'] + r);
        assert(t.drop_first() =~= r);
    } else {
        let rest = list_tail(items.drop_first()) + seq![']'] + r;
        assert(t.drop_first() =~= quoted(items[0]) + rest);
        lemma_parse_quoted(items[0], rest);
        lemma_parse_more(items.drop_first(), r);
        assert(seq![items[0]] + items.drop_first() =~= items);
    }
}

proof fn lemma_parse_array(items: Seq<Seq<char>>, r: Seq<char>)
    ensures
        parse_array(array_text(items) + r) == Some((items, r)),
{
    let t = array_text(items) + r;
    if items.len() == 0 {
        assert(t.subrange(2, t.len() as int) =~= r);
    } else {
        let rest = list_tail(items.drop_first()) + seq![']'] + r;
        assert(t.drop_first() =~= quoted(items[0]) + rest);
        lemma_parse_quoted(items[0], rest);
        lemma_parse_more(items.drop_first(), r);
        assert(seq![items[0]] + items.drop_first() =~= items);
    }
}

proof fn lemma_parse_bool(b: bool, r: Seq<char>)
    ensures
        parse_bool(bool_text(b) + r) == Some((b, r)),
{
    lemma_expect(bool_text(b), r);
    if !b {
        let t = bool_text(false) + r;
        assert(t[0] == 'f');
        assert(t.subrange(0, 4)[0] == 'f');
    }
}

proof fn lemma_parse_payload(p: PayloadModel, r: Seq<char>)
    ensures
        parse_payload(payload_text(p) + r) == Some((p, r)),
{
    let t9 = r;
    let t8 = seq!['}'] + t9;
    let t7 = quoted(p.user) + t8;
    let t6 = key_user() + t7;
    let t5 = bool_text(p.sudo) + t6;
    let t4 = key_sudo() + t5;
    let t3 = quoted(p.command) + t4;
    let t2 = key_command() + t3;
    let t1 = array_text(p.args) + t2;
    assert(payload_text(p) + r =~= key_args() + t1);
    lemma_expect(key_args(), t1);
    lemma_parse_array(p.args, t2);
    lemma_expect(key_command(), t3);
    lemma_parse_quoted(p.command, t4);
    lemma_expect(key_sudo(), t5);
    lemma_parse_bool(p.sudo, t6);
    lemma_expect(key_user(), t7);
    lemma_parse_quoted(p.user, t8);
    lemma_expect(seq!['}'], t9);
}

proof fn lemma_parse_report(m: ReportModel, r: Seq<char>)
    ensures
        parse_report(report_text(m) + r) == Some((m, r)),
{
    let t9 = r;
    let t8 = seq!['}'] + t9;
    let t7 = quoted(m.stdout) + t8;
    let t6 = key_stdout() + t7;
    let t5 = quoted(m.stderr) + t6;
    let t4 = key_stderr() + t5;
    let t3 = quoted(m.status) + t4;
    let t2 = key_status() + t3;
    let t1 = payload_text(m.payload) + t2;
    assert(report_text(m) + r =~= key_payload() + t1);
    lemma_expect(key_payload(), t1);
    lemma_parse_payload(m.payload, t2);
    lemma_expect(key_status(), t3);
    lemma_parse_quoted(m.status, t4);
    lemma_expect(key_stderr(), t5);
    lemma_parse_quoted(m.stderr, t6);
    lemma_expect(key_stdout(), t7);
    lemma_parse_quoted(m.stdout, t8);
    lemma_expect(seq!['}'], t9);
}

proof fn lemma_expect_sound(t: Seq<char>, lit: Seq<char>, r: Seq<char>)
    requires
        expect(t, lit) == Some(r),
    ensures
        t == lit + r,
{
    assert(t =~= t.subrange(0, lit.len() as int) + t.subrange(lit.len() as int, t.len() as int));
}

proof fn lemma_unescape_sound(t: Seq<char>, c: char, n: int)
    requires
        unescape_unit(t) == Some((c, n)),
    ensures
        1 <= n <= t.len(),
        t.subrange(0, n) == escape_char(c),
{
    if t[0] == '\\' {
        if short_unescape(t[1]) is Some {
            assert(t.subrange(0, 2) =~= escape_char(c));
        } else {
            let a = hex_value(t[4]);
            let b = hex_value(t[5]);
            let v = 16 * a + b;
            assert(0 <= b < 16);
            assert(v / 16 == a && v % 16 == b) by (nonlinear_arith)
                requires
                    v == 16 * a + b,
                    0 <= b < 16,
                    0 <= a,
            ;
            assert(0 <= v < 32);
            assert((code_char(v) as u32) as int == v);
            assert(hex_digit(a) == t[4]);
            assert(hex_digit(b) as u32 == t[5] as u32);
            vstd::utf8::char_u32_cast(hex_digit(b), hex_digit(b) as u32);
            vstd::utf8::char_u32_cast(t[5], t[5] as u32);
            assert(t.subrange(0, 6) =~= escape_char(c));
        }
    } else {
        assert(t.subrange(0, 1) =~= escape_char(c));
    }
}

proof fn lemma_body_sound(t: Seq<char>, s: Seq<char>, r: Seq<char>)
    requires
        parse_body(t) == Some((s, r)),
    ensures
        t == escape(s) + seq!['"'] + r,
    decreases t.len(),
{
    if t[0] == '"' {
        assert(s =~= Seq::<char>::empty());
        assert(t =~= escape(s) + seq!['"'] + r);
    } else {
        let (c, n) = unescape_unit(t)->0;
        let u = t.subrange(n, t.len() as int);
        lemma_unescape_sound(t, c, n);
        let (s2, r2) = parse_body(u)->0;
        lemma_body_sound(u, s2, r2);
        assert(s == seq![c] + s2);
        assert(s.drop_first() =~= s2);
        assert(t =~= t.subrange(0, n) + u);
        assert(t =~= escape(s) + seq!['"'] + r);
    }
}

proof fn lemma_quoted_sound(t: Seq<char>, s: Seq<char>, r: Seq<char>)
    requires
        parse_quoted(t) == Some((s, r)),
    ensures
        t == quoted(s) + r,
{
    lemma_body_sound(t.drop_first(), s, r);
    assert(t =~= seq![t[0]] + t.drop_first());
    assert(t =~= quoted(s) + r);
}

proof fn lemma_more_sound(t: Seq<char>, items: Seq<Seq<char>>, r: Seq<char>)
    requires
        parse_more(t) == Some((items, r)),
    ensures
        t == list_tail(items) + seq![']'] + r,
    decreases t.len(),
{
    if t[0] == ']' {
        assert(items =~= Seq::<Seq<char>>::empty());
        assert(t =~= list_tail(items) + seq![']'] + r);
    } else {
        let (s, u) = parse_quoted(t.drop_first())->0;
        lemma_quoted_sound(t.drop_first(), s, u);
        let (rest, r2) = parse_more(u)->0;
        lemma_more_sound(u, rest, r2);
        assert(items == seq![s] + rest);
        assert(items.drop_first() =~= rest);
        assert(t =~= seq![t[0]] + t.drop_first());
        assert(t =~= list_tail(items) + seq![']'] + r);
    }
}

proof fn lemma_array_sound(t: Seq<char>, items: Seq<Seq<char>>, r: Seq<char>)
    requires
        parse_array(t) == Some((items, r)),
    ensures
        t == array_text(items) + r,
{
    if t.len() >= 2 && t[0] == '[' && t[1] == ']' {
        assert(t =~= array_text(items) + r);
    } else {
        let (s, u) = parse_quoted(t.drop_first())->0;
        lemma_quoted_sound(t.drop_first(), s, u);
        let (rest, r2) = parse_more(u)->0;
        lemma_more_sound(u, rest, r2);
        assert(items.drop_first() =~= rest);
        assert(t =~= seq![t[0]] + t.drop_first());
        assert(t =~= array_text(items) + r);
    }
}

proof fn lemma_bool_sound(t: Seq<char>, b: bool, r: Seq<char>)
    requires
        parse_bool(t) == Some((b, r)),
    ensures
        t == bool_text(b) + r,
{
    if expect(t, bool_text(true)) is Some {
        lemma_expect_sound(t, bool_text(true), r);
    } else {
        lemma_expect_sound(t, bool_text(false), r);
    }
}

#[verifier::rlimit(80)]
proof fn lemma_payload_sound(t: Seq<char>, p: PayloadModel, r: Seq<char>)
    requires
        parse_payload(t) == Some((p, r)),
    ensures
        t == payload_text(p) + r,
{
    let t1 = expect(t, key_args())->0;
    lemma_expect_sound(t, key_args(), t1);
    let (args, t2) = parse_array(t1)->0;
    lemma_array_sound(t1, args, t2);
    let t3 = expect(t2, key_command())->0;
    lemma_expect_sound(t2, key_command(), t3);
    let (command, t4) = parse_quoted(t3)->0;
    lemma_quoted_sound(t3, command, t4);
    let t5 = expect(t4, key_sudo())->0;
    lemma_expect_sound(t4, key_sudo(), t5);
    let (sudo, t6) = parse_bool(t5)->0;
    lemma_bool_sound(t5, sudo, t6);
    let t7 = expect(t6, key_user())->0;
    lemma_expect_sound(t6, key_user(), t7);
    let (user, t8) = parse_quoted(t7)->0;
    lemma_quoted_sound(t7, user, t8);
    assert(expect(t8, seq!['}']) == Some(r));
    assert(p == PayloadModel { sudo, user, command, args });
    lemma_expect_sound(t8, seq!['}'], r);
    assert(payload_text(p) + r =~= key_args() + (array_text(args) + (key_command() + (quoted(
        command,
    ) + (key_sudo() + (bool_text(sudo) + (key_user() + (quoted(user) + (seq!['}'] + r)))))))));
}

#[verifier::rlimit(40)]
proof fn lemma_report_sound(t: Seq<char>, m: ReportModel, r: Seq<char>)
    requires
        parse_report(t) == Some((m, r)),
    ensures
        t == report_text(m) + r,
{
    let t1 = expect(t, key_payload())->0;
    lemma_expect_sound(t, key_payload(), t1);
    let (payload, t2) = parse_payload(t1)->0;
    lemma_payload_sound(t1, payload, t2);
    let t3 = expect(t2, key_status())->0;
    lemma_expect_sound(t2, key_status(), t3);
    let (status, t4) = parse_quoted(t3)->0;
    lemma_quoted_sound(t3, status, t4);
    let t5 = expect(t4, key_stderr())->0;
    lemma_expect_sound(t4, key_stderr(), t5);
    let (stderr, t6) = parse_quoted(t5)->0;
    lemma_quoted_sound(t5, stderr, t6);
    let t7 = expect(t6, key_stdout())->0;
    lemma_expect_sound(t6, key_stdout(), t7);
    let (stdout, t8) = parse_quoted(t7)->0;
    lemma_quoted_sound(t7, stdout, t8);
    lemma_expect_sound(t8, seq!['}'], r);
    assert(report_text(m) + r =~= key_payload() + (payload_text(payload) + (key_status() + (quoted(
        status,
    ) + (key_stderr() + (quoted(stderr) + (key_stdout() + (quoted(stdout) + (seq!['}']
        + r)))))))));
}

// ---- writing ----

proof fn lemma_escape_push(s: Seq<char>, c: char)
    ensures
        escape(s.push(c)) == escape(s) + escape_char(c),
    decreases s.len(),
{
    if s.len() == 0 {
        assert(s.push(c).drop_first() =~= Seq::<char>::empty());
        assert(escape(s.push(c).drop_first()) == Seq::<char>::empty());
        assert(escape(s.push(c)) =~= escape_char(c));
    } else {
        assert(s.push(c).drop_first() =~= s.drop_first().push(c));
        lemma_escape_push(s.drop_first(), c);
        assert(escape(s.push(c)) =~= escape(s) + escape_char(c));
    }
}

proof fn lemma_list_tail_push(items: Seq<Seq<char>>, x: Seq<char>)
    ensures
        list_tail(items.push(x)) == list_tail(items) + seq![','] + quoted(x),
    decreases items.len(),
{
    if items.len() == 0 {
        assert(items.push(x).drop_first() =~= Seq::<Seq<char>>::empty());
        assert(list_tail(items.push(x).drop_first()) == Seq::<char>::empty());
        assert(list_tail(items.push(x)) =~= list_tail(items) + seq![','] + quoted(x));
    } else {
        assert(items.push(x).drop_first() =~= items.drop_first().push(x));
        lemma_list_tail_push(items.drop_first(), x);
        assert(list_tail(items.push(x)) =~= list_tail(items) + seq![','] + quoted(x));
    }
}

fn hex_digit_of(n: u32) -> (r: char)
    requires
        n < 16,
    ensures
        r == hex_digit(n as int),
{
    if n < 10 {
        ((n + 48) as u8) as char
    } else {
        ((n + 87) as u8) as char
    }
}

fn short_escape_of(c: char) -> (r: Option<char>)
    ensures
        r == short_escape(c),
{
    if c == '"' {
        Some('"')
    } else if c == '\\' {
        Some('\\')
    } else if c == '\u{8}' {
        Some('b')
    } else if c == '\u{c}' {
        Some('f')
    } else if c == '\n' {
        Some('n')
    } else if c == '\r' {
        Some('r')
    } else if c == '\t' {
        Some('t')
    } else {
        None
    }
}

fn short_unescape_of(e: char) -> (r: Option<char>)
    ensures
        r == short_unescape(e),
{
    if e == '"' {
        Some('"')
    } else if e == '\\' {
        Some('\\')
    } else if e == 'b' {
        Some('\u{8}')
    } else if e == 'f' {
        Some('\u{c}')
    } else if e == 'n' {
        Some('\n')
    } else if e == 'r' {
        Some('\r')
    } else if e == 't' {
        Some('\t')
    } else {
        None
    }
}

fn push_lit(out: &mut String, lit: &Vec<char>)
    ensures
        final(out)@ == old(out)@ + lit@,
{
    let mut k: usize = 0;
    while k < lit.len()
        invariant
            k <= lit@.len(),
            out@ == old(out)@ + lit@.subrange(0, k as int),
        decreases lit@.len() - k,
    {
        push_char(out, lit[k]);
        k += 1;
        assert(lit@.subrange(0, k as int) == lit@.subrange(0, k - 1).push(lit@[k - 1]));
    }
    assert(lit@.subrange(0, lit@.len() as int) == lit@);
}

fn push_escape_char(out: &mut String, c: char)
    ensures
        final(out)@ == old(out)@ + escape_char(c),
{
    match short_escape_of(c) {
        Some(e) => {
            push_char(out, '\\');
            push_char(out, e);
        },
        None => {
            if (c as u32) < 32 {
                push_char(out, '\\');
                push_char(out, 'u');
                push_char(out, '0');
                push_char(out, '0');
                push_char(out, hex_digit_of(c as u32 / 16));
                push_char(out, hex_digit_of(c as u32 % 16));
            } else {
                push_char(out, c);
            }
        },
    }
    assert(final(out)@ =~= old(out)@ + escape_char(c));
}

fn push_quoted(out: &mut String, s: &String)
    ensures
        final(out)@ == old(out)@ + quoted(s@),
{
    let cs = chars_of(s.as_str());
    let ghost start = out@;
    push_char(out, '"');
    let mut k: usize = 0;
    while k < cs.len()
        invariant
            k <= cs@.len(),
            cs@ == s@,
            out@ == start + seq!['"'] + escape(cs@.subrange(0, k as int)),
        decreases cs@.len() - k,
    {
        proof {
            lemma_escape_push(cs@.subrange(0, k as int), cs@[k as int]);
            assert(cs@.subrange(0, k + 1) == cs@.subrange(0, k as int).push(cs@[k as int]));
        }
        push_escape_char(out, cs[k]);
        k += 1;
    }
    assert(cs@.subrange(0, cs@.len() as int) == cs@);
    push_char(out, '"');
    assert(out@ =~= start + quoted(s@));
}

fn push_array(out: &mut String, items: &Vec<String>)
    ensures
        final(out)@ == old(out)@ + array_text(texts_of(items@)),
{
    let ghost start = out@;
    let ghost v = texts_of(items@);
    push_char(out, '[');
    if items.len() > 0 {
        push_quoted(out, &items[0]);
        let mut k: usize = 1;
        while k < items.len()
            invariant
                1 <= k <= items@.len(),
                v == texts_of(items@),
                out@ == start + seq!['['] + quoted(v[0]) + list_tail(v.subrange(1, k as int)),
            decreases items@.len() - k,
        {
            proof {
                lemma_list_tail_push(v.subrange(1, k as int), v[k as int]);
                assert(v.subrange(1, k + 1) == v.subrange(1, k as int).push(v[k as int]));
            }
            push_char(out, ',');
            push_quoted(out, &items[k]);
            k += 1;
            assert(out@ =~= start + seq!['['] + quoted(v[0]) + list_tail(v.subrange(1, k as int)));
        }
        assert(v.subrange(1, v.len() as int) =~= v.drop_first());
    }
    push_char(out, ']');
    assert(out@ =~= start + array_text(v));
}

fn lit_key_args() -> (r: Vec<char>)
    ensures
        r@ == key_args(),
{
    vec!['{', '"', 'a', 'r', 'g', 's', '"', ':']
}

fn lit_key_command() -> (r: Vec<char>)
    ensures
        r@ == key_command(),
{
    vec![',', '"', 'c', 'o', 'm', 'm', 'a', 'n', 'd', '"', ':']
}

fn lit_key_sudo() -> (r: Vec<char>)
    ensures
        r@ == key_sudo(),
{
    vec![',', '"', 's', 'u', 'd', 'o', '"', ':']
}

fn lit_key_user() -> (r: Vec<char>)
    ensures
        r@ == key_user(),
{
    vec![',', '"', 'u', 's', 'e', 'r', '"', ':']
}

fn lit_key_payload() -> (r: Vec<char>)
    ensures
        r@ == key_payload(),
{
    vec!['{', '"', 'p', 'a', 'y', 'l', 'o', 'a', 'd', '"', ':']
}

fn lit_key_status() -> (r: Vec<char>)
    ensures
        r@ == key_status(),
{
    vec![',', '"', 's', 't', 'a', 't', 'u', 's', '"', ':']
}

fn lit_key_stderr() -> (r: Vec<char>)
    ensures
        r@ == key_stderr(),
{
    vec![',', '"', 's', 't', 'd', 'e', 'r', 'r', '"', ':']
}

fn lit_key_stdout() -> (r: Vec<char>)
    ensures
        r@ == key_stdout(),
{
    vec![',', '"', 's', 't', 'd', 'o', 'u', 't', '"', ':']
}

fn lit_bool(b: bool) -> (r: Vec<char>)
    ensures
        r@ == bool_text(b),
{
    if b {
        vec!['t', 'r', 'u', 'e']
    } else {
        vec!['f', 'a', 'l', 's', 'e']
    }
}

fn lit_close() -> (r: Vec<char>)
    ensures
        r@ == seq!['}'],
{
    vec!['}']
}

fn push_payload(out: &mut String, p: &Payload)
    ensures
        final(out)@ == old(out)@ + payload_text(p@),
{
    let ghost start = out@;
    push_lit(out, &lit_key_args());
    push_array(out, &p.args);
    push_lit(out, &lit_key_command());
    push_quoted(out, &p.command);
    push_lit(out, &lit_key_sudo());
    push_lit(out, &lit_bool(p.sudo));
    push_lit(out, &lit_key_user());
    push_quoted(out, &p.user);
    push_lit(out, &lit_close());
    assert(out@ =~= start + payload_text(p@));
}

/// Writes the message that carries the command `p`.
pub fn encode_payload(p: &Payload) -> (r: String)
    ensures
        r@ == payload_text(p@),
{
    let mut out = String::new();
    push_payload(&mut out, p);
    assert(out@ =~= payload_text(p@));
    out
}

/// Writes the message that carries the report `r`.
pub fn encode_report(r: &Report) -> (t: String)
    ensures
        t@ == report_text(r@),
{
    let mut out = String::new();
    push_lit(&mut out, &lit_key_payload());
    push_payload(&mut out, &r.payload);
    push_lit(&mut out, &lit_key_status());
    push_quoted(&mut out, &r.status);
    push_lit(&mut out, &lit_key_stderr());
    push_quoted(&mut out, &r.stderr);
    push_lit(&mut out, &lit_key_stdout());
    push_quoted(&mut out, &r.stdout);
    push_lit(&mut out, &lit_close());
    assert(out@ =~= report_text(r@));
    out
}

// ---- reading, executable ----

/// The characters of `t` from position `i` on.
pub open spec fn suffix(t: Seq<char>, i: int) -> Seq<char> {
    t.subrange(i, t.len() as int)
}

pub open spec fn prepend<A>(o: Seq<A>, x: Option<(Seq<A>, Seq<char>)>) -> Option<
    (Seq<A>, Seq<char>),
> {
    match x {
        Some((s, r)) => Some((o + s, r)),
        None => None,
    }
}

fn expect_at(t: &Vec<char>, i: usize, lit: &Vec<char>) -> (r: Option<usize>)
    requires
        i <= t@.len(),
    ensures
        match r {
            Some(j) => i <= j <= t@.len() && expect(suffix(t@, i as int), lit@) == Some(
                suffix(t@, j as int),
            ),
            None => expect(suffix(t@, i as int), lit@) is None,
        },
{
    let ghost u = suffix(t@, i as int);
    if lit.len() > t.len() - i {
        return None;
    }
    let n = t.len();
    let mut k: usize = 0;
    while k < lit.len()
        invariant
            k <= lit@.len(),
            n == t@.len(),
            lit@.len() <= u.len(),
            i + lit@.len() <= t@.len(),
            u == suffix(t@, i as int),
            i <= t@.len(),
            forall|m: int| 0 <= m < k ==> u[m] == lit@[m],
        decreases lit@.len() - k,
    {
        if t[i + k] != lit[k] {
            assert(u.subrange(0, lit@.len() as int)[k as int] != lit@[k as int]);
            return None;
        }
        k += 1;
    }
    assert(u.subrange(0, lit@.len() as int) =~= lit@);
    assert(u.subrange(lit@.len() as int, u.len() as int) =~= suffix(t@, i + lit@.len()));
    Some(i + lit.len())
}

fn unescape_unit_at(t: &Vec<char>, i: usize) -> (r: Option<(char, usize)>)
    requires
        i < t@.len(),
    ensures
        match r {
            Some((c, n)) => 1 <= n && i + n <= t@.len() && unescape_unit(suffix(t@, i as int))
                == Some((c, n as int)),
            None => unescape_unit(suffix(t@, i as int)) is None,
        },
{
    let ghost u = suffix(t@, i as int);
    let c = t[i];
    if c == '"' {
        None
    } else if c == '\\' {
        if t.len() - i < 2 {
            return None;
        }
        let e = t[i + 1];
        match short_unescape_of(e) {
            Some(d) => Some((d, 2)),
            None => {
                if e == 'u' && t.len() - i >= 6 && t[i + 2] == '0' && t[i + 3] == '0' && (t[i + 4]
                    == '0' || t[i + 4] == '1') && ((48 <= t[i + 5] as u32 && t[i + 5] as u32
                    <= 57) || (97 <= t[i + 5] as u32 && t[i + 5] as u32 <= 102)) {
                    let high: u32 = t[i + 4] as u32 - 48;
                    let h = t[i + 5] as u32;
                    let low: u32 = if h <= 57 {
                        h - 48
                    } else {
                        h - 87
                    };
                    let d = ((16 * high + low) as u8) as char;
                    assert(d == code_char(16 * hex_value(u[4]) + hex_value(u[5])));
                    if short_escape_of(d).is_none() {
                        Some((d, 6))
                    } else {
                        None
                    }
                } else {
                    None
                }
            },
        }
    } else if (c as u32) < 32 {
        None
    } else {
        Some((c, 1))
    }
}

fn parse_body_at(t: &Vec<char>, start: usize) -> (r: Option<(Vec<char>, usize)>)
    requires
        start <= t@.len(),
    ensures
        match r {
            Some((s, j)) => start <= j <= t@.len() && parse_body(suffix(t@, start as int)) == Some(
                (s@, suffix(t@, j as int)),
            ),
            None => parse_body(suffix(t@, start as int)) is None,
        },
{
    let mut out: Vec<char> = Vec::new();
    let mut i: usize = start;
    proof {
        if let Some((s, r)) = parse_body(suffix(t@, start as int)) {
            assert(Seq::<char>::empty() + s =~= s);
        }
    }
    while i < t.len()
        invariant
            start <= i <= t@.len(),
            parse_body(suffix(t@, start as int)) == prepend(out@, parse_body(suffix(t@, i as int))),
        decreases t@.len() - i,
    {
        let ghost u = suffix(t@, i as int);
        if t[i] == '"' {
            assert(u.drop_first() =~= suffix(t@, i + 1));
            assert(out@ + Seq::<char>::empty() =~= out@);
            return Some((out, i + 1));
        }
        match unescape_unit_at(t, i) {
            Some((c, n)) => {
                assert(u.subrange(n as int, u.len() as int) =~= suffix(t@, i + n));
                let ghost before = out@;
                out.push(c);
                i += n;
                proof {
                    let x = parse_body(suffix(t@, i as int));
                    if let Some((s, r)) = x {
                        assert(before + (seq![c] + s) =~= out@ + s);
                    }
                }
            },
            None => {
                return None;
            },
        }
    }
    None
}

fn parse_quoted_at(t: &Vec<char>, i: usize) -> (r: Option<(String, usize)>)
    requires
        i <= t@.len(),
    ensures
        match r {
            Some((s, j)) => i <= j <= t@.len() && parse_quoted(suffix(t@, i as int)) == Some(
                (s@, suffix(t@, j as int)),
            ),
            None => parse_quoted(suffix(t@, i as int)) is None,
        },
{
    if i < t.len() && t[i] == '"' {
        assert(suffix(t@, i as int).drop_first() =~= suffix(t@, i + 1));
        match parse_body_at(t, i + 1) {
            Some((s, j)) => Some((string_of(&s), j)),
            None => None,
        }
    } else {
        None
    }
}

fn parse_more_at(t: &Vec<char>, start: usize, first: Vec<String>) -> (r: Option<
    (Vec<String>, usize),
>)
    requires
        start <= t@.len(),
    ensures
        match r {
            Some((items, j)) => start <= j <= t@.len() && prepend(
                texts_of(first@),
                parse_more(suffix(t@, start as int)),
            ) == Some((texts_of(items@), suffix(t@, j as int))),
            None => parse_more(suffix(t@, start as int)) is None,
        },
{
    let mut out = first;
    let mut i: usize = start;
    while i < t.len()
        invariant
            start <= i <= t@.len(),
            parse_more(suffix(t@, start as int)) is None <==> parse_more(suffix(t@, i as int)) is None,
            prepend(texts_of(first@), parse_more(suffix(t@, start as int))) == prepend(
                texts_of(out@),
                parse_more(suffix(t@, i as int)),
            ),
        decreases t@.len() - i,
    {
        let ghost u = suffix(t@, i as int);
        if t[i] == ']' {
            assert(u.drop_first() =~= suffix(t@, i + 1));
            assert(texts_of(out@) + Seq::<Seq<char>>::empty() =~= texts_of(out@));
            return Some((out, i + 1));
        }
        if t[i] != ',' {
            return None;
        }
        assert(u.drop_first() =~= suffix(t@, i + 1));
        match parse_quoted_at(t, i + 1) {
            Some((s, j)) => {
                let ghost before = texts_of(out@);
                out.push(s);
                i = j;
                proof {
                    assert(texts_of(out@) =~= before.push(s@));
                    let x = parse_more(suffix(t@, i as int));
                    if let Some((ss, r)) = x {
                        assert(before + (seq![s@] + ss) =~= texts_of(out@) + ss);
                    }
                }
            },
            None => {
                return None;
            },
        }
    }
    None
}

fn parse_array_at(t: &Vec<char>, i: usize) -> (r: Option<(Vec<String>, usize)>)
    requires
        i <= t@.len(),
    ensures
        match r {
            Some((items, j)) => i <= j <= t@.len() && parse_array(suffix(t@, i as int)) == Some(
                (texts_of(items@), suffix(t@, j as int)),
            ),
            None => parse_array(suffix(t@, i as int)) is None,
        },
{
    let ghost u = suffix(t@, i as int);
    if t.len() - i >= 2 && t[i] == '[' && t[i + 1] == ']' {
        assert(u.subrange(2, u.len() as int) =~= suffix(t@, i + 2));
        let empty: Vec<String> = Vec::new();
        assert(texts_of(empty@) =~= Seq::<Seq<char>>::empty());
        Some((empty, i + 2))
    } else if i < t.len() && t[i] == '[' {
        assert(u.drop_first() =~= suffix(t@, i + 1));
        match parse_quoted_at(t, i + 1) {
            Some((s, j)) => {
                let mut first: Vec<String> = Vec::new();
                first.push(s);
                assert(texts_of(first@) =~= seq![s@]);
                parse_more_at(t, j, first)
            },
            None => None,
        }
    } else {
        None
    }
}

fn parse_bool_at(t: &Vec<char>, i: usize) -> (r: Option<(bool, usize)>)
    requires
        i <= t@.len(),
    ensures
        match r {
            Some((b, j)) => i <= j <= t@.len() && parse_bool(suffix(t@, i as int)) == Some(
                (b, suffix(t@, j as int)),
            ),
            None => parse_bool(suffix(t@, i as int)) is None,
        },
{
    match expect_at(t, i, &lit_bool(true)) {
        Some(j) => Some((true, j)),
        None => match expect_at(t, i, &lit_bool(false)) {
            Some(j) => Some((false, j)),
            None => None,
        },
    }
}

fn parse_payload_at(t: &Vec<char>, i: usize) -> (r: Option<(Payload, usize)>)
    requires
        i <= t@.len(),
    ensures
        match r {
            Some((p, j)) => i <= j <= t@.len() && parse_payload(suffix(t@, i as int)) == Some(
                (p@, suffix(t@, j as int)),
            ),
            None => parse_payload(suffix(t@, i as int)) is None,
        },
{
    let i1 = match expect_at(t, i, &lit_key_args()) {
        Some(j) => j,
        None => return None,
    };
    let (args, i2) = match parse_array_at(t, i1) {
        Some(x) => x,
        None => return None,
    };
    let i3 = match expect_at(t, i2, &lit_key_command()) {
        Some(j) => j,
        None => return None,
    };
    let (command, i4) = match parse_quoted_at(t, i3) {
        Some(x) => x,
        None => return None,
    };
    let i5 = match expect_at(t, i4, &lit_key_sudo()) {
        Some(j) => j,
        None => return None,
    };
    let (sudo, i6) = match parse_bool_at(t, i5) {
        Some(x) => x,
        None => return None,
    };
    let i7 = match expect_at(t, i6, &lit_key_user()) {
        Some(j) => j,
        None => return None,
    };
    let (user, i8) = match parse_quoted_at(t, i7) {
        Some(x) => x,
        None => return None,
    };
    let i9 = match expect_at(t, i8, &lit_close()) {
        Some(j) => j,
        None => return None,
    };
    Some((Payload { sudo, user, command, args }, i9))
}

fn parse_report_at(t: &Vec<char>, i: usize) -> (r: Option<(Report, usize)>)
    requires
        i <= t@.len(),
    ensures
        match r {
            Some((m, j)) => i <= j <= t@.len() && parse_report(suffix(t@, i as int)) == Some(
                (m@, suffix(t@, j as int)),
            ),
            None => parse_report(suffix(t@, i as int)) is None,
        },
{
    let i1 = match expect_at(t, i, &lit_key_payload()) {
        Some(j) => j,
        None => return None,
    };
    let (payload, i2) = match parse_payload_at(t, i1) {
        Some(x) => x,
        None => return None,
    };
    let i3 = match expect_at(t, i2, &lit_key_status()) {
        Some(j) => j,
        None => return None,
    };
    let (status, i4) = match parse_quoted_at(t, i3) {
        Some(x) => x,
        None => return None,
    };
    let i5 = match expect_at(t, i4, &lit_key_stderr()) {
        Some(j) => j,
        None => return None,
    };
    let (stderr, i6) = match parse_quoted_at(t, i5) {
        Some(x) => x,
        None => return None,
    };
    let i7 = match expect_at(t, i6, &lit_key_stdout()) {
        Some(j) => j,
        None => return None,
    };
    let (stdout, i8) = match parse_quoted_at(t, i7) {
        Some(x) => x,
        None => return None,
    };
    let i9 = match expect_at(t, i8, &lit_close()) {
        Some(j) => j,
        None => return None,
    };
    Some((Report { payload, status, stdout, stderr }, i9))
}

/// Reads a command message. Only the exact text that [`encode_payload`]
/// writes for some command is accepted.
pub fn decode_payload(text: &str) -> (r: Option<Payload>)
    ensures
        match r {
            Some(p) => text@ == payload_text(p@),
            None => forall|m: PayloadModel| text@ != payload_text(m),
        },
{
    let t = chars_of(text);
    assert(suffix(t@, 0) =~= t@);
    let parsed = parse_payload_at(&t, 0);
    proof {
        assert forall|m: PayloadModel| text@ == payload_text(m) implies parse_payload(t@) == Some(
            (m, Seq::<char>::empty()),
        ) by {
            assert(t@ =~= payload_text(m) + Seq::<char>::empty());
            lemma_parse_payload(m, Seq::<char>::empty());
        }
    }
    match parsed {
        Some((p, j)) => {
            if j != t.len() {
                return None;
            }
            proof {
                lemma_payload_sound(t@, p@, suffix(t@, j as int));
                assert(t@ =~= payload_text(p@) + suffix(t@, j as int));
            }
            Some(p)
        },
        None => None,
    }
}

/// Reads a report message. Only the exact text that [`encode_report`]
/// writes for some report is accepted.
pub fn decode_report(text: &str) -> (r: Option<Report>)
    ensures
        match r {
            Some(m) => text@ == report_text(m@),
            None => forall|m: ReportModel| text@ != report_text(m),
        },
{
    let t = chars_of(text);
    assert(suffix(t@, 0) =~= t@);
    let parsed = parse_report_at(&t, 0);
    proof {
        assert forall|m: ReportModel| text@ == report_text(m) implies parse_report(t@) == Some(
            (m, Seq::<char>::empty()),
        ) by {
            assert(t@ =~= report_text(m) + Seq::<char>::empty());
            lemma_parse_report(m, Seq::<char>::empty());
        }
    }
    match parsed {
        Some((m, j)) => {
            if j != t.len() {
                return None;
            }
            proof {
                lemma_report_sound(t@, m@, suffix(t@, j as int));
                assert(t@ =~= report_text(m@) + suffix(t@, j as int));
            }
            Some(m)
        },
        None => None,
    }
}

/// Round trip of commands: two commands with the same message are the same
/// command, so decoding what [`encode_payload`] wrote for a command gives back
/// a command equal to it in every field, however often this is repeated.
pub proof fn lemma_payload_round_trip(p: PayloadModel, q: PayloadModel)
    requires
        payload_text(q) == payload_text(p),
    ensures
        q == p,
{
    lemma_parse_payload(p, Seq::<char>::empty());
    lemma_parse_payload(q, Seq::<char>::empty());
}

/// Round trip of reports: two reports with the same message are the same
/// report, so decoding what [`encode_report`] wrote gives back an equal report.
pub proof fn lemma_report_round_trip(m: ReportModel, n: ReportModel)
    requires
        report_text(n) == report_text(m),
    ensures
        n == m,
{
    lemma_parse_report(m, Seq::<char>::empty());
    lemma_parse_report(n, Seq::<char>::empty());
}

} // verus!
