//! The decisions of the interactive shell: what each input line asks for.
//!
//! The shell reads lines and carries out the actions these functions
//! return; a statement may span lines and ends with a semicolon.
use vstd::prelude::*;
use crate::cli::commands::{DotCommand, DotCommandView, spec_parse_dot};
use crate::sql::lexer::{char_whitespace, is_whitespace};
use crate::text::{chars_of, push_char};

verus! {

/// What the shell does with a line
#[derive(Debug, PartialEq)]
pub enum ReplAction {
    /// Nothing: the line is blank
    Skip,
    /// Leave the shell
    Quit,
    /// Open another database file
    Open(String),
    /// Run a dot command
    Command(DotCommand),
    /// Report an unknown dot command
    UnknownCommand,
    /// Run a complete SQL statement, without its final semicolons
    Execute(String),
    /// Wait for more lines of the statement
    Continue,
}

/// The shell's state: the statement read so far
pub struct ReplState {
    buffer: String,
}

/// The text without leading whitespace.
pub open spec fn trim_start(s: Seq<char>) -> Seq<char>
    decreases s.len(),
{
    if s.len() > 0 && char_whitespace(s[0]) { trim_start(s.drop_first()) } else { s }
}

/// The text without trailing characters that satisfy the test.
pub open spec fn trim_end_by(s: Seq<char>, semis: bool) -> Seq<char>
    decreases s.len(),
{
    if s.len() > 0 && (if semis { s.last() == ';' } else { char_whitespace(s.last()) }) {
        trim_end_by(s.drop_last(), semis)
    } else {
        s
    }
}

/// The text without whitespace at either end.
pub open spec fn trim(s: Seq<char>) -> Seq<char> {
    trim_end_by(trim_start(s), false)
}

/// The statement a buffer holds: trimmed, without its final semicolons.
pub open spec fn statement_text(buffer: Seq<char>) -> Seq<char> {
    trim_end_by(trim(buffer), true)
}

/// The chars from `i` on, without leading whitespace.
fn skip_ws(cs: &Vec<char>, i: usize) -> (r: usize)
    requires
        i <= cs@.len(),
    ensures
        i <= r <= cs@.len(),
        trim_start(cs@.skip(i as int)) == cs@.skip(r as int),
    decreases cs@.len() - i,
{
    if i < cs.len() && is_whitespace(cs[i]) {
        assert(cs@.skip(i as int).drop_first() =~= cs@.skip(i + 1));
        skip_ws(cs, i + 1)
    } else {
        i
    }
}

/// The end of the chars before `j` (from `lo`) without trailing whitespace
/// or semicolons.
fn back_over(cs: &Vec<char>, lo: usize, j: usize, semis: bool) -> (r: usize)
    requires
        lo <= j <= cs@.len(),
    ensures
        lo <= r <= j,
        trim_end_by(cs@.subrange(lo as int, j as int), semis) == cs@.subrange(lo as int, r as int),
    decreases j - lo,
{
    if j > lo && (if semis { cs[j - 1] == ';' } else { is_whitespace(cs[j - 1]) }) {
        assert(cs@.subrange(lo as int, j as int).drop_last() =~= cs@.subrange(lo as int, j - 1));
        back_over(cs, lo, j - 1, semis)
    } else {
        j
    }
}

/// The text of a range of chars.
fn text_of(cs: &Vec<char>, lo: usize, hi: usize) -> (s: String)
    requires
        lo <= hi <= cs@.len(),
    ensures
        s@ == cs@.subrange(lo as int, hi as int),
{
    let mut s = String::new();
    let mut k: usize = lo;
    while k < hi
        invariant
            lo <= k <= hi,
            hi <= cs@.len(),
            s@ == cs@.subrange(lo as int, k as int),
        decreases hi - k,
    {
        push_char(&mut s, cs[k]);
        assert(cs@.subrange(lo as int, k + 1) =~= cs@.subrange(lo as int, k as int).push(cs@[k as int]));
        k = k + 1;
    }
    s
}

/// The text trimmed of whitespace.
fn trimmed(s: &str) -> (r: String)
    ensures
        r@ == trim(s@),
{
    let cs = chars_of(s);
    let a = skip_ws(&cs, 0);
    assert(cs@.skip(0) =~= cs@);
    let b = back_over(&cs, a, cs.len(), false);
    assert(cs@.skip(a as int) =~= cs@.subrange(a as int, cs@.len() as int));
    text_of(&cs, a, b)
}

impl ReplState {
    /// The statement read so far.
    pub closed spec fn pending(&self) -> Seq<char> {
        self.buffer@
    }

    /// A shell with nothing read
    pub fn new() -> (r: Self)
        ensures
            r.pending() == Seq::<char>::empty(),
    {
        ReplState { buffer: String::new() }
    }

    /// The prompt: a continuation prompt while a statement is open
    pub fn prompt(&self) -> (p: &'static str)
        ensures
            p@ == if self.pending().len() == 0 { "deepsql> "@ } else { "      -> "@ },
    {
        if chars_of(self.buffer.as_str()).len() == 0 {
            proof { reveal_strlit("deepsql> "); }
            "deepsql> "
        } else {
            proof { reveal_strlit("      -> "); }
            "      -> "
        }
    }

    /// Ctrl-C: the statement read so far is dropped
    pub fn interrupt(&mut self)
        ensures
            final(self).pending() == Seq::<char>::empty(),
    {
        self.buffer = String::new();
    }

    /// What a line asks for.  A blank line is skipped; a line starting
    /// with `.` outside a statement is a dot command; any other line adds
    /// to the statement, which runs once a line ends with `;`.
    pub fn on_line(&mut self, line: &str) -> (a: ReplAction)
        ensures
            ({
                let l = trim(line@);
                if l.len() == 0 {
                    a == ReplAction::Skip && final(self).pending() == old(self).pending()
                } else if l[0] == '.' && old(self).pending().len() == 0 {
                    &&& final(self).pending() == old(self).pending()
                    &&& match spec_parse_dot(l) {
                        Some(DotCommandView::Quit) => a == ReplAction::Quit,
                        Some(DotCommandView::Exit) => a == ReplAction::Quit,
                        Some(DotCommandView::Open(p)) => a matches ReplAction::Open(q) && q@ == p,
                        Some(c) => a matches ReplAction::Command(d) && d@ == c,
                        None => a == ReplAction::UnknownCommand,
                    }
                } else {
                    let b = old(self).pending() + l + seq![' '];
                    if l.last() == ';' {
                        &&& a matches ReplAction::Execute(s) && s@ == statement_text(b)
                        &&& final(self).pending() == Seq::<char>::empty()
                    } else {
                        &&& a == ReplAction::Continue
                        &&& final(self).pending() == b
                    }
                }
            }),
    {
        let l = trimmed(line);
        let lc = chars_of(l.as_str());
        if lc.len() == 0 {
            return ReplAction::Skip;
        }
        if lc[0] == '.' && chars_of(self.buffer.as_str()).len() == 0 {
            return match DotCommand::parse(l.as_str()) {
                Some(DotCommand::Quit) => ReplAction::Quit,
                Some(DotCommand::Exit) => ReplAction::Quit,
                Some(DotCommand::Open(p)) => ReplAction::Open(p),
                Some(c) => ReplAction::Command(c),
                None => ReplAction::UnknownCommand,
            };
        }
        crate::text::push_str(&mut self.buffer, l.as_str());
        push_char(&mut self.buffer, ' ');
        assert(self.buffer@ =~= old(self).pending() + l@ + seq![' ']);
        if lc[lc.len() - 1] == ';' {
            let t = trimmed(self.buffer.as_str());
            let tc = chars_of(t.as_str());
            let e = back_over(&tc, 0, tc.len(), true);
            assert(tc@.subrange(0, tc@.len() as int) =~= tc@);
            let sql = text_of(&tc, 0, e);
            self.buffer = String::new();
            ReplAction::Execute(sql)
        } else {
            ReplAction::Continue
        }
    }
}

} // verus!
