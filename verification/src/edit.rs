//! The edit command language: a small textual DSL parsed into a command
//! algebra and evaluated against an addressed node or event.

use crate::dates::{dates_of_text, Dates};
use crate::scalar::{scalar_micros_of, Scalar};
use vstd::prelude::*;

verus! {

/// The kind of tree element an evaluation was aimed at.
#[derive(Clone, Copy, Debug, PartialEq, Eq, Structural)]
pub enum ValueType {
    Node,
    Event,
}

/// Why evaluating a command against a target failed.
#[derive(Debug)]
pub enum EvalError {
    NotApplicable(ValueType, Command),
    IndexError { index: usize, len: usize },
}

pub type EvalResult = Result<(), EvalError>;

/// Why reading a command from text failed. The text-carrying variants hold
/// the offending tokens.
#[derive(Clone, Debug, PartialEq)]
pub enum ParseError {
    MissingCommand,
    MissingArgument,
    ExtraArgument(String, String),
    UnknownCommand(String, Option<String>),
    NotAFloat(String),
    NotAInt(String),
    NotADate(String),
}

/// A parsed edit command.
#[derive(Clone, Debug, PartialEq)]
pub enum Command {
    Exit,
    Help,
    NameSub,
    NameEdit(Option<String>),
    DescAdd(Option<String>),
    DescSub(usize),
    DescEdit(usize, Option<String>),
    LineEdit(crate::events::LineSetting),
    Offset(Scalar),
    Scale(Scalar),
    DateEdit(Dates),
}

/// The modifier carried by a command's head token.
#[derive(Clone, Copy, Debug, PartialEq, Eq, Structural)]
pub enum Mod {
    Add,
    Sub,
    Edit,
}

/// Splits a leading `+` or `-` off a word.
pub open spec fn mod_of(s: Seq<char>) -> (Mod, Seq<char>) {
    if s.len() > 0 && s[0] == '+' {
        (Mod::Add, s.drop_first())
    } else if s.len() > 0 && s[0] == '-' {
        (Mod::Sub, s.drop_first())
    } else {
        (Mod::Edit, s)
    }
}

/// Strips the modifier (if present) off a word and names it.
pub fn get_mod<'a>(word: &'a str) -> (r: (Mod, &'a str))
    ensures
        r.0 == mod_of(word@).0,
        r.1@ == mod_of(word@).1,
{
    let n = word.unicode_len();
    if n > 0 {
        let c = word.get_char(0);
        if c == '+' || c == '-' {
            let rest = word.substring_char(1, n);
            proof {
                assert(word@.subrange(1, word@.len() as int) =~= word@.drop_first());
            }
            return (
                if c == '+' {
                    Mod::Add
                } else {
                    Mod::Sub
                },
                rest,
            );
        }
    }
    (Mod::Edit, word)
}

/// End of the run of non-whitespace characters starting at `i`.
pub open spec fn token_end(s: Seq<char>, i: int) -> int
    decreases s.len() - i when 0 <= i <= s.len()
{
    if i < s.len() && !crate::text::is_space(s[i]) {
        token_end(s, i + 1)
    } else {
        i
    }
}

pub proof fn lemma_token_end_ge(s: Seq<char>, i: int)
    requires
        0 <= i <= s.len(),
    ensures
        i <= token_end(s, i) <= s.len(),
    decreases s.len() - i,
{
    if i < s.len() && !crate::text::is_space(s[i]) {
        lemma_token_end_ge(s, i + 1);
    }
}

pub proof fn lemma_token_end_is(s: Seq<char>, i: int, j: int)
    requires
        0 <= i <= j <= s.len(),
        forall|k: int| i <= k < j ==> !crate::text::is_space(#[trigger] s[k]),
        j < s.len() ==> crate::text::is_space(s[j]),
    ensures
        token_end(s, i) == j,
    decreases j - i,
{
    if i < j {
        lemma_token_end_is(s, i + 1, j);
    }
}

/// The whitespace-separated tokens of `s`, from position `i` on.
pub open spec fn tokens_from(s: Seq<char>, i: int) -> Seq<Seq<char>>
    decreases s.len() - i when 0 <= i <= s.len() via tokens_from_decreases
{
    if i >= s.len() {
        Seq::empty()
    } else if crate::text::is_space(s[i]) {
        tokens_from(s, i + 1)
    } else {
        seq![s.subrange(i, token_end(s, i))] + tokens_from(s, token_end(s, i))
    }
}

#[via_fn]
proof fn tokens_from_decreases(s: Seq<char>, i: int) {
    if 0 <= i < s.len() && !crate::text::is_space(s[i]) {
        lemma_token_end_ge(s, i + 1);
    }
}

/// The whitespace-separated tokens of `s`.
pub open spec fn tokens_of(s: Seq<char>) -> Seq<Seq<char>> {
    tokens_from(s, 0)
}

/// The tokens from index `k` on, joined with single spaces.
pub open spec fn join_from(toks: Seq<Seq<char>>, k: int) -> Seq<char>
    decreases toks.len() - k when 0 <= k <= toks.len()
{
    if k >= toks.len() {
        Seq::empty()
    } else if k == toks.len() - 1 {
        toks[k]
    } else {
        toks[k] + seq![' '] + join_from(toks, k + 1)
    }
}

/// The free-form tail after the first `k` tokens: absent when nothing is
/// left, else the remaining tokens joined with single spaces.
pub open spec fn tail_join(toks: Seq<Seq<char>>, k: int) -> Option<Seq<char>> {
    if k >= toks.len() {
        None
    } else {
        Some(join_from(toks, k))
    }
}

/// An unsigned index: an optional `+`, then only digits, with a value that
/// fits the machine.
pub open spec fn index_of_text(t: Seq<char>) -> Option<int> {
    if t.len() > 0 && t[0] == '+' {
        index_digits(t.drop_first())
    } else {
        index_digits(t)
    }
}

/// The value of a nonempty all-digit body that fits the machine.
pub open spec fn index_digits(body: Seq<char>) -> Option<int> {
    if body.len() > 0 && crate::text::all_digits(body) && crate::text::digits_val(body)
        <= usize::MAX {
        Some(crate::text::digits_val(body))
    } else {
        None
    }
}

/// The ghost mirror of a parsed command: text as character sequences,
/// numbers as mathematical values.
pub enum CommandV {
    Exit,
    Help,
    NameSub,
    NameEdit(Option<Seq<char>>),
    DescAdd(Option<Seq<char>>),
    DescSub(int),
    DescEdit(int, Option<Seq<char>>),
    LineEdit(crate::events::LineSetting),
    Offset(int),
    Scale(int),
    DateEdit(Dates),
}

/// The ghost mirror of a parse error.
pub enum ParseErrorV {
    MissingCommand,
    MissingArgument,
    ExtraArgument(Seq<char>, Seq<char>),
    UnknownCommand(Seq<char>, Option<Seq<char>>),
    NotAFloat(Seq<char>),
    NotAInt(Seq<char>),
    NotADate(Seq<char>),
}

pub open spec fn command_view(c: Command) -> CommandV {
    match c {
        Command::Exit => CommandV::Exit,
        Command::Help => CommandV::Help,
        Command::NameSub => CommandV::NameSub,
        Command::NameEdit(o) => CommandV::NameEdit(
            match o {
                Some(s) => Some(s@),
                None => None,
            },
        ),
        Command::DescAdd(o) => CommandV::DescAdd(
            match o {
                Some(s) => Some(s@),
                None => None,
            },
        ),
        Command::DescSub(n) => CommandV::DescSub(n as int),
        Command::DescEdit(n, o) => CommandV::DescEdit(
            n as int,
            match o {
                Some(s) => Some(s@),
                None => None,
            },
        ),
        Command::LineEdit(ls) => CommandV::LineEdit(ls),
        Command::Offset(x) => CommandV::Offset(x.micros as int),
        Command::Scale(x) => CommandV::Scale(x.micros as int),
        Command::DateEdit(d) => CommandV::DateEdit(d),
    }
}

pub open spec fn parse_error_view(e: ParseError) -> ParseErrorV {
    match e {
        ParseError::MissingCommand => ParseErrorV::MissingCommand,
        ParseError::MissingArgument => ParseErrorV::MissingArgument,
        ParseError::ExtraArgument(a, b) => ParseErrorV::ExtraArgument(a@, b@),
        ParseError::UnknownCommand(a, b) => ParseErrorV::UnknownCommand(
            a@,
            match b {
                Some(s) => Some(s@),
                None => None,
            },
        ),
        ParseError::NotAFloat(t) => ParseErrorV::NotAFloat(t@),
        ParseError::NotAInt(t) => ParseErrorV::NotAInt(t@),
        ParseError::NotADate(t) => ParseErrorV::NotADate(t@),
    }
}

/// The command grammar. The head token may carry a `+` or `-` modifier;
/// arguments follow as tokens; a free-form tail is the remaining tokens
/// joined with single spaces. Exactly one of a command value or one of the
/// stated errors comes out of every input.
pub open spec fn parse_command_spec(s: Seq<char>) -> Result<CommandV, ParseErrorV> {
    let toks = tokens_of(s);
    if toks.len() == 0 {
        Err(ParseErrorV::MissingCommand)
    } else {
        let m = mod_of(toks[0]).0;
        let head = mod_of(toks[0]).1;
        if head == "exit"@ {
            if toks.len() > 1 {
                Err(ParseErrorV::ExtraArgument(head, join_from(toks, 1)))
            } else {
                Ok(CommandV::Exit)
            }
        } else if head == "help"@ {
            if toks.len() > 1 {
                Err(ParseErrorV::ExtraArgument(head, join_from(toks, 1)))
            } else {
                Ok(CommandV::Help)
            }
        } else if head == "date"@ && m is Edit {
            match tail_join(toks, 1) {
                None => Err(ParseErrorV::MissingArgument),
                Some(t) => match crate::dates::dates_of_text(t) {
                    Some(d) => Ok(CommandV::DateEdit(d)),
                    None => Err(ParseErrorV::NotADate(t)),
                },
            }
        } else if head == "name"@ && m is Sub {
            if toks.len() > 1 {
                Err(ParseErrorV::ExtraArgument(head, join_from(toks, 1)))
            } else {
                Ok(CommandV::NameSub)
            }
        } else if head == "name"@ {
            Ok(CommandV::NameEdit(tail_join(toks, 1)))
        } else if head == "desc"@ && m is Sub {
            if toks.len() < 2 {
                Err(ParseErrorV::MissingArgument)
            } else {
                match index_of_text(toks[1]) {
                    None => Err(ParseErrorV::NotAInt(toks[1])),
                    Some(n) => if toks.len() > 2 {
                        Err(ParseErrorV::ExtraArgument(head, join_from(toks, 2)))
                    } else {
                        Ok(CommandV::DescSub(n))
                    },
                }
            }
        } else if head == "desc"@ && m is Add {
            Ok(CommandV::DescAdd(tail_join(toks, 1)))
        } else if head == "desc"@ {
            if toks.len() < 2 {
                Err(ParseErrorV::MissingArgument)
            } else {
                match index_of_text(toks[1]) {
                    None => Err(ParseErrorV::NotAInt(toks[1])),
                    Some(n) => Ok(CommandV::DescEdit(n, tail_join(toks, 2))),
                }
            }
        } else if head == "line"@ && m is Sub {
            if toks.len() > 1 {
                Err(ParseErrorV::ExtraArgument(head, join_from(toks, 1)))
            } else {
                Ok(CommandV::LineEdit(crate::events::LineSetting::Off))
            }
        } else if head == "line"@ {
            if toks.len() < 2 {
                Ok(CommandV::LineEdit(crate::events::LineSetting::On))
            } else {
                match scalar_micros_of(toks[1]) {
                    None => Err(ParseErrorV::NotAFloat(toks[1])),
                    Some(x) => if toks.len() > 2 {
                        Err(ParseErrorV::ExtraArgument(head, join_from(toks, 2)))
                    } else {
                        Ok(
                            CommandV::LineEdit(
                                crate::events::LineSetting::OnWith(Scalar { micros: x as i64 }),
                            ),
                        )
                    },
                }
            }
        } else if head == "offset"@ && m is Sub {
            if toks.len() > 1 {
                Err(ParseErrorV::ExtraArgument(head, join_from(toks, 1)))
            } else {
                Ok(CommandV::Offset(0))
            }
        } else if head == "offset"@ {
            if toks.len() < 2 {
                Err(ParseErrorV::MissingArgument)
            } else {
                match scalar_micros_of(toks[1]) {
                    None => Err(ParseErrorV::NotAFloat(toks[1])),
                    Some(x) => if toks.len() > 2 {
                        Err(ParseErrorV::ExtraArgument(head, join_from(toks, 2)))
                    } else {
                        Ok(CommandV::Offset(x))
                    },
                }
            }
        } else if head == "scale"@ && m is Sub {
            if toks.len() > 1 {
                Err(ParseErrorV::ExtraArgument(head, join_from(toks, 1)))
            } else {
                Ok(CommandV::Scale(crate::scalar::MICROS as int))
            }
        } else if head == "scale"@ {
            if toks.len() < 2 {
                Err(ParseErrorV::MissingArgument)
            } else {
                match scalar_micros_of(toks[1]) {
                    None => Err(ParseErrorV::NotAFloat(toks[1])),
                    Some(x) => if toks.len() > 2 {
                        Err(ParseErrorV::ExtraArgument(head, join_from(toks, 2)))
                    } else {
                        Ok(CommandV::Scale(x))
                    },
                }
            }
        } else {
            Err(ParseErrorV::UnknownCommand(head, tail_join(toks, 1)))
        }
    }
}

/// A token window agrees with the `k`-th spec token.
pub open spec fn window_is_token(v: Seq<char>, w: (usize, usize), t: Seq<char>) -> bool {
    &&& w.0 <= w.1 <= v.len()
    &&& v.subrange(w.0 as int, w.1 as int) == t
}

/// End of the token that starts at `lo`.
fn scan_token_end(v: &Vec<char>, lo: usize, hi: usize) -> (r: usize)
    requires
        lo <= hi <= v@.len(),
    ensures
        lo <= r <= hi,
        forall|k: int| lo <= k < r ==> !crate::text::is_space(#[trigger] v@[k]),
        r < hi ==> crate::text::is_space(v@[r as int]),
    decreases hi - lo,
{
    if lo < hi && !crate::text::space_of(v[lo]) {
        let r = scan_token_end(v, lo + 1, hi);
        r
    } else {
        lo
    }
}

/// Collects the token windows of `v` from position `i` on.
fn tokenize_from(v: &Vec<char>, i: usize, out: &mut Vec<(usize, usize)>)
    requires
        i <= v@.len(),
    ensures
        final(out)@.len() == old(out)@.len() + tokens_from(v@, i as int).len(),
        forall|j: int| 0 <= j < old(out)@.len() ==> final(out)@[j] == old(out)@[j],
        forall|j: int|
            0 <= j < tokens_from(v@, i as int).len() ==> window_is_token(
                v@,
                final(out)@[old(out)@.len() + j],
                tokens_from(v@, i as int)[j],
            ),
    decreases v@.len() - i,
{
    if i == v.len() {
        return ;
    }
    if crate::text::space_of(v[i]) {
        tokenize_from(v, i + 1, out);
        return ;
    }
    let e = scan_token_end(v, i, v.len());
    proof {
        lemma_token_end_is(v@, i as int, e as int);
    }
    out.push((i, e));
    tokenize_from(v, e, out);
}

/// The token windows of `v`: each holds one whitespace-separated word.
fn tokenize(v: &Vec<char>) -> (r: Vec<(usize, usize)>)
    ensures
        r@.len() == tokens_of(v@).len(),
        forall|j: int|
            0 <= j < r@.len() ==> window_is_token(v@, r@[j], #[trigger] tokens_of(v@)[j]),
{
    let mut out: Vec<(usize, usize)> = Vec::new();
    tokenize_from(v, 0, &mut out);
    out
}

/// The tokens from index `k` on, joined with single spaces; faithful to
/// `join_from`.
fn join_tokens(v: &Vec<char>, toks: &Vec<(usize, usize)>, k: usize) -> (r: String)
    requires
        k < toks@.len(),
        toks@.len() == tokens_of(v@).len(),
        forall|j: int|
            0 <= j < toks@.len() ==> window_is_token(v@, toks@[j], #[trigger] tokens_of(v@)[j]),
    ensures
        r@ == join_from(tokens_of(v@), k as int),
    decreases toks@.len() - k,
{
    let w = toks[k];
    proof {
        assert(window_is_token(v@, toks@[k as int], tokens_of(v@)[k as int]));
    }
    let mut out = crate::text::string_of_range(v, w.0, w.1);
    if k < toks.len() - 1 {
        out.append(" ");
        let rest = join_tokens(v, toks, k + 1);
        out.append(rest.as_str());
        proof {
            reveal_strlit(" ");
            assert(out@ =~= join_from(tokens_of(v@), k as int));
        }
    }
    out
}

/// Reads the window `lo .. hi` of `v` as an unsigned index; faithful to
/// `index_of_text` on that window.
pub(crate) fn parse_index(v: &Vec<char>, lo: usize, hi: usize) -> (r: Option<usize>)
    requires
        lo <= hi <= v@.len(),
    ensures
        match r {
            Some(n) => index_of_text(v@.subrange(lo as int, hi as int)) == Some(n as int),
            None => index_of_text(v@.subrange(lo as int, hi as int)) is None,
        },
{
    let ghost t = v@.subrange(lo as int, hi as int);
    let p: usize = if lo < hi && v[lo] == '+' {
        lo + 1
    } else {
        lo
    };
    let ghost body = if t.len() > 0 && t[0] == '+' {
        t.drop_first()
    } else {
        t
    };
    proof {
        assert(body =~= v@.subrange(p as int, hi as int));
    }
    proof {
        assert(index_of_text(t) == index_digits(body));
    }
    if p == hi {
        return None;
    }
    let mut acc: u128 = 0;
    let ghost cap = usize::MAX as int;
    let mut i: usize = p;
    while i < hi
        invariant
            p <= i <= hi <= v@.len(),
            t == v@.subrange(lo as int, hi as int),
            index_of_text(t) == index_digits(body),
            body =~= v@.subrange(p as int, hi as int),
            crate::text::all_digits(body.take(i - p)),
            0 <= acc <= cap + 1,
            cap == usize::MAX as int,
            crate::text::digits_val(body.take(i - p)) <= cap ==> acc == crate::text::digits_val(
                body.take(i - p),
            ),
            crate::text::digits_val(body.take(i - p)) > cap ==> acc == cap + 1,
        decreases hi - i,
    {
        let ghost pref = body.take(i - p);
        match crate::text::digit_of(v[i]) {
            Some(d) => {
                proof {
                    assert(body.take(i + 1 - p) =~= pref.push(body[i - p]));
                    crate::text::lemma_digits_val_push(pref, body[i - p]);
                    crate::text::lemma_digits_val_bounds(pref);
                }
                if acc <= (usize::MAX as u128) {
                    let next: u128 = acc * 10 + (d as u128);
                    if next > (usize::MAX as u128) {
                        acc = (usize::MAX as u128) + 1;
                    } else {
                        acc = next;
                    }
                } else {
                    proof {
                        let dv = crate::text::digits_val(pref);
                        assert(dv * 10 + crate::text::digit_val(body[i - p]) > cap)
                            by (nonlinear_arith)
                            requires
                                dv > cap,
                                cap > 0,
                                crate::text::digit_val(body[i - p]) >= 0,
                        ;
                    }
                }
            },
            None => {
                proof {
                    assert(body[i - p] == v@[i as int]);
                    assert(!crate::text::is_digit(body[i - p]));
                    assert(!crate::text::all_digits(body));
                    assert(index_digits(body) is None);
                }
                return None;
            },
        }
        i = i + 1;
    }
    proof {
        assert(body.take(hi - p) =~= body);
    }
    if acc > (usize::MAX as u128) {
        None
    } else {
        Some(acc as usize)
    }
}

impl Command {
    pub fn is_exit(&self) -> (r: bool)
        ensures
            r == (*self is Exit),
    {
        match self {
            Command::Exit => true,
            _ => false,
        }
    }

    pub fn is_help(&self) -> (r: bool)
        ensures
            r == (*self is Help),
    {
        match self {
            Command::Help => true,
            _ => false,
        }
    }

    /// Reads a command from text; faithful to `parse_command_spec`, so for
    /// every input exactly one of a command or one of the stated parse
    /// errors comes back.
    #[verifier::rlimit(100)]
    pub fn parse(query: &str) -> (r: Result<Command, ParseError>)
        ensures
            match r {
                Ok(c) => parse_command_spec(query@) == Ok::<CommandV, ParseErrorV>(command_view(c)),
                Err(e) => parse_command_spec(query@) == Err::<CommandV, ParseErrorV>(
                    parse_error_view(e),
                ),
            },
    {
        let v = crate::text::to_chars(query);
        let toks = tokenize(&v);
        let ghost tseq = tokens_of(query@);
        if toks.len() == 0 {
            return Err(ParseError::MissingCommand);
        }
        let t0 = toks[0];
        let (m, hlo) = if t0.1 > t0.0 && v[t0.0] == '+' {
            (Mod::Add, t0.0 + 1)
        } else if t0.1 > t0.0 && v[t0.0] == '-' {
            (Mod::Sub, t0.0 + 1)
        } else {
            (Mod::Edit, t0.0)
        };
        proof {
            assert(tseq[0] == v@.subrange(t0.0 as int, t0.1 as int));
            assert(mod_of(tseq[0]).1 =~= v@.subrange(hlo as int, t0.1 as int));
            assert(mod_of(tseq[0]).0 == m);
        }
        let head = crate::text::string_of_range(&v, hlo, t0.1);
        if string_eq_lit(&head, "exit") {
            if toks.len() > 1 {
                Err(ParseError::ExtraArgument(head, join_tokens(&v, &toks, 1)))
            } else {
                Ok(Command::Exit)
            }
        } else if string_eq_lit(&head, "help") {
            if toks.len() > 1 {
                Err(ParseError::ExtraArgument(head, join_tokens(&v, &toks, 1)))
            } else {
                Ok(Command::Help)
            }
        } else if string_eq_lit(&head, "date") && matches!(m, Mod::Edit) {
            if toks.len() < 2 {
                Err(ParseError::MissingArgument)
            } else {
                let t = join_tokens(&v, &toks, 1);
                match Dates::parse(t.as_str()) {
                    Some(d) => Ok(Command::DateEdit(d)),
                    None => Err(ParseError::NotADate(t)),
                }
            }
        } else if string_eq_lit(&head, "name") && matches!(m, Mod::Sub) {
            if toks.len() > 1 {
                Err(ParseError::ExtraArgument(head, join_tokens(&v, &toks, 1)))
            } else {
                Ok(Command::NameSub)
            }
        } else if string_eq_lit(&head, "name") {
            if toks.len() > 1 {
                Ok(Command::NameEdit(Some(join_tokens(&v, &toks, 1))))
            } else {
                Ok(Command::NameEdit(None))
            }
        } else if string_eq_lit(&head, "desc") && matches!(m, Mod::Sub) {
            if toks.len() < 2 {
                Err(ParseError::MissingArgument)
            } else {
                let t1 = toks[1];
                match parse_index(&v, t1.0, t1.1) {
                    None => Err(ParseError::NotAInt(crate::text::string_of_range(&v, t1.0, t1.1))),
                    Some(n) => {
                        if toks.len() > 2 {
                            Err(ParseError::ExtraArgument(head, join_tokens(&v, &toks, 2)))
                        } else {
                            Ok(Command::DescSub(n))
                        }
                    },
                }
            }
        } else if string_eq_lit(&head, "desc") && matches!(m, Mod::Add) {
            if toks.len() > 1 {
                Ok(Command::DescAdd(Some(join_tokens(&v, &toks, 1))))
            } else {
                Ok(Command::DescAdd(None))
            }
        } else if string_eq_lit(&head, "desc") {
            if toks.len() < 2 {
                Err(ParseError::MissingArgument)
            } else {
                let t1 = toks[1];
                match parse_index(&v, t1.0, t1.1) {
                    None => Err(ParseError::NotAInt(crate::text::string_of_range(&v, t1.0, t1.1))),
                    Some(n) => {
                        if toks.len() > 2 {
                            Ok(Command::DescEdit(n, Some(join_tokens(&v, &toks, 2))))
                        } else {
                            Ok(Command::DescEdit(n, None))
                        }
                    },
                }
            }
        } else if string_eq_lit(&head, "line") && matches!(m, Mod::Sub) {
            if toks.len() > 1 {
                Err(ParseError::ExtraArgument(head, join_tokens(&v, &toks, 1)))
            } else {
                Ok(Command::LineEdit(crate::events::LineSetting::Off))
            }
        } else if string_eq_lit(&head, "line") {
            if toks.len() < 2 {
                Ok(Command::LineEdit(crate::events::LineSetting::On))
            } else {
                let t1 = toks[1];
                match crate::scalar::parse_scalar(&v, t1.0, t1.1) {
                    None => Err(
                        ParseError::NotAFloat(crate::text::string_of_range(&v, t1.0, t1.1)),
                    ),
                    Some(x) => {
                        if toks.len() > 2 {
                            Err(ParseError::ExtraArgument(head, join_tokens(&v, &toks, 2)))
                        } else {
                            Ok(Command::LineEdit(crate::events::LineSetting::OnWith(x)))
                        }
                    },
                }
            }
        } else if string_eq_lit(&head, "offset") && matches!(m, Mod::Sub) {
            if toks.len() > 1 {
                Err(ParseError::ExtraArgument(head, join_tokens(&v, &toks, 1)))
            } else {
                Ok(Command::Offset(Scalar::zero()))
            }
        } else if string_eq_lit(&head, "offset") {
            if toks.len() < 2 {
                Err(ParseError::MissingArgument)
            } else {
                let t1 = toks[1];
                match crate::scalar::parse_scalar(&v, t1.0, t1.1) {
                    None => Err(
                        ParseError::NotAFloat(crate::text::string_of_range(&v, t1.0, t1.1)),
                    ),
                    Some(x) => {
                        if toks.len() > 2 {
                            Err(ParseError::ExtraArgument(head, join_tokens(&v, &toks, 2)))
                        } else {
                            Ok(Command::Offset(x))
                        }
                    },
                }
            }
        } else if string_eq_lit(&head, "scale") && matches!(m, Mod::Sub) {
            if toks.len() > 1 {
                Err(ParseError::ExtraArgument(head, join_tokens(&v, &toks, 1)))
            } else {
                Ok(Command::Scale(Scalar::one()))
            }
        } else if string_eq_lit(&head, "scale") {
            if toks.len() < 2 {
                Err(ParseError::MissingArgument)
            } else {
                let t1 = toks[1];
                match crate::scalar::parse_scalar(&v, t1.0, t1.1) {
                    None => Err(
                        ParseError::NotAFloat(crate::text::string_of_range(&v, t1.0, t1.1)),
                    ),
                    Some(x) => {
                        if toks.len() > 2 {
                            Err(ParseError::ExtraArgument(head, join_tokens(&v, &toks, 2)))
                        } else {
                            Ok(Command::Scale(x))
                        }
                    },
                }
            }
        } else {
            if toks.len() > 1 {
                Err(ParseError::UnknownCommand(head, Some(join_tokens(&v, &toks, 1))))
            } else {
                Err(ParseError::UnknownCommand(head, None))
            }
        }
    }
}

/// Which commands a node accepts.
pub open spec fn node_applicable(c: Command) -> bool {
    c is NameSub || c is NameEdit || c is LineEdit || c is Offset || c is Scale
}

/// The node that results from an applicable command.
pub open spec fn node_after(c: Command, n: crate::events::Node) -> crate::events::Node {
    match c {
        Command::NameSub => (crate::events::Node { name: None, ..n }),
        Command::NameEdit(o) => (crate::events::Node { name: o, ..n }),
        Command::LineEdit(ls) => (crate::events::Node { line: ls, ..n }),
        Command::Offset(x) => (crate::events::Node { offset: x, ..n }),
        Command::Scale(x) => (crate::events::Node { y_scale: x, ..n }),
        _ => n,
    }
}

/// What evaluating a command against a node does: an applicable command
/// rewrites the node and succeeds; any other leaves it unchanged and
/// reports `NotApplicable` naming the target's kind and echoing the
/// command itself.
pub open spec fn node_eval_rel(
    c: Command,
    before: crate::events::Node,
    after: crate::events::Node,
    r: EvalResult,
) -> bool {
    if node_applicable(c) {
        after == node_after(c, before) && r is Ok
    } else {
        &&& after == before
        &&& (r matches Err(EvalError::NotApplicable(vt, c2)) && vt == ValueType::Node && c2 == c)
    }
}

/// The node-editing commands are idempotent: applying one of them twice
/// leaves the same node as applying it once; in particular clearing the
/// line setting or the name a second time changes nothing.
pub proof fn lemma_node_edit_idempotent(c: Command, n: crate::events::Node)
    requires
        node_applicable(c),
    ensures
        node_after(c, node_after(c, n)) == node_after(c, n),
{
}

/// What evaluating a command against an event does: a refusal names the
/// target's kind and echoes the command itself.
pub open spec fn event_eval_rel(
    c: Command,
    before: crate::events::Event,
    after: crate::events::Event,
    r: EvalResult,
) -> bool {
    match c {
        Command::NameEdit(o) => match o {
            Some(s) => r is Ok && after.name@ == s@ && after.descriptions == before.descriptions
                && after.datetime == before.datetime,
            None => after == before && (r matches Err(EvalError::NotApplicable(vt, c2)) && vt
                == ValueType::Event && c2 == c),
        },
        Command::DescAdd(o) => match o {
            Some(s) => {
                &&& r is Ok
                &&& after.descriptions@.len() == before.descriptions@.len() + 1
                &&& forall|j: int|
                    0 <= j < before.descriptions@.len() ==> after.descriptions@[j]
                        == before.descriptions@[j]
                &&& after.descriptions@.last()@ == s@
                &&& after.name == before.name
                &&& after.datetime == before.datetime
            },
            None => r is Ok && after == before,
        },
        Command::DescSub(i) => if i < before.descriptions@.len() {
            &&& r is Ok
            &&& after.descriptions@ == before.descriptions@.remove(i as int)
            &&& after.name == before.name
            &&& after.datetime == before.datetime
        } else {
            &&& after == before
            &&& (r matches Err(EvalError::IndexError { index, len }) && index == i && len
                == before.descriptions@.len())
        },
        Command::DescEdit(i, o) => match o {
            Some(s) => if i < before.descriptions@.len() {
                &&& r is Ok
                &&& after.descriptions@.len() == before.descriptions@.len()
                &&& after.descriptions@[i as int]@ == s@
                &&& forall|j: int|
                    0 <= j < before.descriptions@.len() && j != i ==> after.descriptions@[j]
                        == before.descriptions@[j]
                &&& after.name == before.name
                &&& after.datetime == before.datetime
            } else {
                &&& after == before
                &&& (r matches Err(EvalError::IndexError { index, len }) && index == i && len
                    == before.descriptions@.len())
            },
            None => r is Ok && after == before,
        },
        Command::DateEdit(d) => r is Ok && after.datetime == d && after.name == before.name
            && after.descriptions == before.descriptions,
        _ => after == before && (r matches Err(EvalError::NotApplicable(vt, c2)) && vt
            == ValueType::Event && c2 == c),
    }
}

impl Command {
    /// A copy that Verus can see is equal to the value it copies.
    fn dup(&self) -> (r: Command)
        ensures
            r == *self,
    {
        match self {
            Command::Exit => Command::Exit,
            Command::Help => Command::Help,
            Command::NameSub => Command::NameSub,
            Command::NameEdit(o) => Command::NameEdit(dup_opt_string(o)),
            Command::DescAdd(o) => Command::DescAdd(dup_opt_string(o)),
            Command::DescSub(n) => Command::DescSub(*n),
            Command::DescEdit(n, o) => Command::DescEdit(*n, dup_opt_string(o)),
            Command::LineEdit(ls) => Command::LineEdit(*ls),
            Command::Offset(x) => Command::Offset(*x),
            Command::Scale(x) => Command::Scale(*x),
            Command::DateEdit(d) => Command::DateEdit(*d),
        }
    }

    /// Evaluates this command against a node; faithful to `node_eval_rel`.
    pub fn eval_node(&self, node: &mut crate::events::Node) -> (r: EvalResult)
        ensures
            node_eval_rel(*self, *old(node), *final(node), r),
    {
        match self {
            Command::Exit | Command::Help | Command::DateEdit(_) => Err(
                EvalError::NotApplicable(ValueType::Node, self.dup()),
            ),
            Command::NameSub => {
                node.name = None;
                Ok(())
            },
            Command::NameEdit(o) => {
                node.name = dup_opt_string(o);
                Ok(())
            },
            Command::LineEdit(ls) => {
                node.set_line(*ls);
                Ok(())
            },
            Command::Offset(x) => {
                node.set_offset(x);
                Ok(())
            },
            Command::Scale(x) => {
                node.set_scale(x);
                Ok(())
            },
            Command::DescAdd(_) | Command::DescSub(_) | Command::DescEdit(_, _) => Err(
                EvalError::NotApplicable(ValueType::Node, self.dup()),
            ),
        }
    }

    /// Evaluates this command against an event; faithful to
    /// `event_eval_rel`.
    pub fn eval_event(&self, event: &mut crate::events::Event) -> (r: EvalResult)
        ensures
            event_eval_rel(*self, *old(event), *final(event), r),
    {
        match self {
            Command::Exit | Command::Help | Command::Offset(_) | Command::Scale(_)
                | Command::NameSub | Command::LineEdit(_) => Err(
                EvalError::NotApplicable(ValueType::Event, self.dup()),
            ),
            Command::NameEdit(o) => match o {
                Some(name) => {
                    event.set_name(name.as_str());
                    Ok(())
                },
                None => Err(EvalError::NotApplicable(ValueType::Event, self.dup())),
            },
            Command::DescAdd(o) => match o {
                Some(s) => {
                    event.add_description(s.as_str());
                    Ok(())
                },
                None => Ok(()),
            },
            Command::DescSub(index) => event.delete_description(*index),
            Command::DescEdit(index, o) => match o {
                Some(desc) => event.change_description(*index, desc.as_str()),
                None => Ok(()),
            },
            Command::DateEdit(dates) => {
                event.set_dates(dates);
                Ok(())
            },
        }
    }
}

/// A copy of an optional text argument.
fn dup_opt_string(o: &Option<String>) -> (r: Option<String>)
    ensures
        r == *o,
{
    match o {
        Some(s) => Some(s.clone()),
        None => None,
    }
}

/// What evaluating a command at the end of a path does to the whole tree:
/// every element off the path is untouched, and the addressed node or
/// event is rewritten as its own evaluation relation says.
pub open spec fn eval_at_rel(
    c: Command,
    before: crate::events::Node,
    after: crate::events::Node,
    path: Seq<usize>,
    inner: EvalResult,
) -> bool
    decreases path.len(),
{
    if path.len() == 0 {
        node_eval_rel(c, before, after, inner)
    } else {
        let i = path[0] as int;
        &&& 1 <= i <= before.children@.len()
        &&& after.children@.len() == before.children@.len()
        &&& crate::events::eq_except_children(after, before)
        &&& forall|j: int|
            0 <= j < before.children@.len() && j != i - 1 ==> after.children@[j]
                == before.children@[j]
        &&& match (before.children@[i - 1], after.children@[i - 1]) {
            (crate::events::Value::Node(b), crate::events::Value::Node(a)) => eval_at_rel(
                c,
                b,
                a,
                path.drop_first(),
                inner,
            ),
            (crate::events::Value::Event(b), crate::events::Value::Event(a)) => path.len() == 1
                && event_eval_rel(c, b, a, inner),
            _ => false,
        }
    }
}

impl Command {
    /// Evaluates this command against the element the path addresses,
    /// mutating it in place. On an invalid path the tree is untouched and
    /// the failure is the one `Node::query` reports; otherwise the inner
    /// result is the evaluation's own verdict.
    pub fn eval_at(
        &self,
        node: &mut crate::events::Node,
        path: &[usize],
    ) -> (r: Result<EvalResult, crate::events::PathFail>)
        ensures
            match r {
                Ok(inner) => {
                    &&& crate::events::query_spec(*old(node), path@) is Some
                    &&& eval_at_rel(*self, *old(node), *final(node), path@, inner)
                },
                Err(pf) => {
                    &&& crate::events::query_spec(*old(node), path@) is None
                    &&& *final(node) == *old(node)
                    &&& pf.path@ == crate::events::query_fail_suffix(*old(node), path@)
                    &&& pf.at == pf.path@.len()
                },
            },
    {
        match node.query(path) {
            Err(pf) => Err(pf),
            Ok(_) => {
                proof {
                    assert(path@.skip(0) =~= path@);
                }
                Ok(self.eval_go(node, path, 0))
            },
        }
    }

    /// Walks down to the addressed element and evaluates there.
    fn eval_go(&self, node: &mut crate::events::Node, path: &[usize], k: usize) -> (inner:
        EvalResult)
        requires
            k <= path@.len(),
            crate::events::query_spec(*old(node), path@.skip(k as int)) is Some,
        ensures
            eval_at_rel(*self, *old(node), *final(node), path@.skip(k as int), inner),
        decreases path@.len() - k,
    {
        let ghost suffix = path@.skip(k as int);
        if k == path.len() {
            proof {
                assert(suffix.len() == 0);
            }
            return self.eval_node(node);
        }
        let i = path[k];
        proof {
            assert(suffix[0] == path@[k as int]);
            assert(suffix.drop_first() =~= path@.skip(k + 1));
        }
        match &mut node.children[i - 1] {
            crate::events::Value::Node(m) => self.eval_go(m, path, k + 1),
            crate::events::Value::Event(e) => self.eval_event(e),
        }
    }
}

impl core::str::FromStr for Command {
    type Err = ParseError;

    fn from_str(query: &str) -> Result<Command, ParseError> {
        Command::parse(query)
    }
}

/// Whether `s` holds exactly the given literal's characters.
fn string_eq_lit(s: &String, lit: &str) -> (r: bool)
    ensures
        r == (s@ == lit@),
{
    let other = String::from_str(lit);
    s.eq(&other)
}

} // verus!
