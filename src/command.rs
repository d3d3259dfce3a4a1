//! Turning a line of operator input into a command.
use vstd::prelude::*;
use vstd::string::StringExecFns;

use crate::message::{texts_of, Payload, PayloadModel};
use crate::text::{chars_of, string_of};

verus! {

/// The characters that separate words: those with the Unicode `White_Space`
/// property.
pub open spec fn is_space(c: char) -> bool {
    let v = c as u32;
    (9 <= v <= 13) || v == 32 || v == 0x85 || v == 0xa0 || v == 0x1680 || (0x2000 <= v
        <= 0x200a) || v == 0x2028 || v == 0x2029 || v == 0x202f || v == 0x205f || v == 0x3000
}

pub fn is_space_char(c: char) -> (r: bool)
    ensures
        r == is_space(c),
{
    let v = c as u32;
    (9 <= v && v <= 13) || v == 32 || v == 0x85 || v == 0xa0 || v == 0x1680 || (0x2000 <= v && v
        <= 0x200a) || v == 0x2028 || v == 0x2029 || v == 0x202f || v == 0x205f || v == 0x3000
}

/// Reading `s` from the left: the words completed so far and the word being
/// read.
pub open spec fn scan_words(s: Seq<char>) -> (Seq<Seq<char>>, Seq<char>)
    decreases s.len(),
{
    if s.len() == 0 {
        (Seq::empty(), Seq::empty())
    } else {
        let (done, cur) = scan_words(s.drop_last());
        if is_space(s.last()) {
            if cur.len() > 0 {
                (done.push(cur), Seq::empty())
            } else {
                (done, Seq::empty())
            }
        } else {
            (done, cur.push(s.last()))
        }
    }
}

/// The words of `s`: its longest runs of characters that are not spaces.
pub open spec fn words(s: Seq<char>) -> Seq<Seq<char>> {
    let (done, cur) = scan_words(s);
    if cur.len() > 0 {
        done.push(cur)
    } else {
        done
    }
}

pub open spec fn sudo_word() -> Seq<char> {
    seq!['s', 'u', 'd', 'o']
}

/// The command that a line stands for, if any: its first word is the
/// program and the others its arguments; a first word `sudo` asks for
/// elevation and is dropped. A line without words, or with `sudo` alone,
/// stands for none.
pub open spec fn command_of(user: Seq<char>, line: Seq<char>) -> Option<PayloadModel> {
    let w = words(line);
    if w.len() == 0 {
        None
    } else if w[0] == sudo_word() {
        if w.len() == 1 {
            None
        } else {
            Some(
                PayloadModel {
                    sudo: true,
                    user,
                    command: w[1],
                    args: w.subrange(2, w.len() as int),
                },
            )
        }
    } else {
        Some(PayloadModel { sudo: false, user, command: w[0], args: w.subrange(1, w.len() as int) })
    }
}

/// Splits `line` into its words.
pub fn split_words(line: &str) -> (r: Vec<String>)
    ensures
        texts_of(r@) == words(line@),
{
    let cs = chars_of(line);
    let mut done: Vec<String> = Vec::new();
    let mut cur: Vec<char> = Vec::new();
    let mut k: usize = 0;
    assert(texts_of(done@) =~= Seq::<Seq<char>>::empty());
    while k < cs.len()
        invariant
            k <= cs@.len(),
            cs@ == line@,
            scan_words(cs@.subrange(0, k as int)) == (texts_of(done@), cur@),
        decreases cs@.len() - k,
    {
        let c = cs[k];
        assert(cs@.subrange(0, k + 1).drop_last() =~= cs@.subrange(0, k as int));
        if is_space_char(c) {
            if cur.len() > 0 {
                let ghost before = texts_of(done@);
                let w = string_of(&cur);
                done.push(w);
                assert(texts_of(done@) =~= before.push(cur@));
                cur = Vec::new();
            }
        } else {
            cur.push(c);
        }
        k += 1;
    }
    assert(cs@.subrange(0, cs@.len() as int) =~= cs@);
    if cur.len() > 0 {
        let ghost before = texts_of(done@);
        let w = string_of(&cur);
        done.push(w);
        assert(texts_of(done@) =~= before.push(cur@));
    }
    done
}

fn is_sudo(w: &String) -> (r: bool)
    ensures
        r == (w@ == sudo_word()),
{
    let cs = chars_of(w.as_str());
    let r = cs.len() == 4 && cs[0] == 's' && cs[1] == 'u' && cs[2] == 'd' && cs[3] == 'o';
    assert(r ==> cs@ =~= sudo_word());
    r
}

/// The command for a line of operator input, issued by `user`; `None` for a
/// line without words or with `sudo` alone.
pub fn payload_from_line(user: &str, line: &str) -> (r: Option<Payload>)
    ensures
        match r {
            Some(p) => command_of(user@, line@) == Some(p@),
            None => command_of(user@, line@) is None,
        },
{
    let w = split_words(line);
    let ghost all = texts_of(w@);
    if w.len() == 0 {
        return None;
    }
    let sudo = is_sudo(&w[0]);
    if sudo && w.len() == 1 {
        return None;
    }
    let first: usize = if sudo {
        1
    } else {
        0
    };
    let mut args: Vec<String> = Vec::new();
    let mut k: usize = first + 1;
    while k < w.len()
        invariant
            first + 1 <= k <= w@.len(),
            all == texts_of(w@),
            texts_of(args@) == all.subrange(first + 1, k as int),
        decreases w@.len() - k,
    {
        let ghost before = texts_of(args@);
        args.push(w[k].clone());
        assert(texts_of(args@) =~= before.push(all[k as int]));
        k += 1;
        assert(all.subrange(first + 1, k as int) =~= all.subrange(first + 1, k - 1).push(
            all[k - 1],
        ));
    }
    let command = w[first].clone();
    Some(Payload { sudo, user: String::from_str(user), command, args })
}

proof fn lemma_no_words(s: Seq<char>)
    ensures
        (scan_words(s).0.len() == 0 && scan_words(s).1.len() == 0) == (forall|i: int|
            0 <= i < s.len() ==> is_space(#[trigger] s[i])),
    decreases s.len(),
{
    if s.len() > 0 {
        let t = s.drop_last();
        lemma_no_words(t);
        if forall|i: int| 0 <= i < s.len() ==> is_space(#[trigger] s[i]) {
            assert forall|i: int| 0 <= i < t.len() implies is_space(#[trigger] t[i]) by {
                assert(t[i] == s[i]);
            }
            assert(is_space(s[s.len() - 1]));
        }
        if forall|i: int| 0 <= i < t.len() ==> is_space(#[trigger] t[i]) {
            if is_space(s.last()) {
                assert forall|i: int| 0 <= i < s.len() implies is_space(#[trigger] s[i]) by {
                    if i < t.len() {
                        assert(t[i] == s[i]);
                    }
                }
            }
        }
    }
}

/// A line yields exactly one command when it has a word and is not the word
/// `sudo` alone, and none when it holds spaces only.
pub proof fn lemma_one_command_per_line(user: Seq<char>, line: Seq<char>)
    ensures
        (forall|i: int| 0 <= i < line.len() ==> is_space(#[trigger] line[i])) ==> command_of(
            user,
            line,
        ) is None,
        (exists|i: int| 0 <= i < line.len() && !is_space(#[trigger] line[i])) && words(line)
            != seq![sudo_word()] ==> command_of(user, line) is Some,
{
    lemma_no_words(line);
    let w = words(line);
    if w.len() == 1 && w[0] == sudo_word() {
        assert(w =~= seq![sudo_word()]);
    }
}

} // verus!
