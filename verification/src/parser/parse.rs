//! The scanner: a cursor over a trimmed line, the command scan and the
//! argument scan, and the entry point that runs them in turn.
use vstd::prelude::*;
use crate::parser::text::{
    decimal, decimal_string, is_trimmed, lemma_run_end, lemma_trimmed, letter, run_end, trim,
    trimmed, CharClass,
};

verus! {

/// What a successful parse hands back: the command name and its arguments in
/// the order in which they stood in the line.
#[derive(Debug)]
pub struct CommandTree {
    cmd: String,
    args: Vec<String>,
}

/// Why a line could not be parsed.
#[derive(Debug)]
pub enum Error {
    /// The line is empty once the whitespace round it is removed.
    EmptySource,
    /// A character was asked for at or behind the end of the text.
    PointOutOfBound(String),
    /// The line does not begin with a command name, and one was required.
    NoCommandGiven,
}

/// How strictly a command name is asked for.
#[derive(Clone, Copy, Debug, PartialEq, Eq, Structural)]
pub enum ParseMode {
    /// The line must begin with a command name.
    Exactly,
    /// A line without a command name gets the empty name.
    Fuzzy,
}

/// The mathematical value of a `CommandTree`.
pub struct CommandTreeView {
    pub cmd: Seq<char>,
    pub args: Seq<Seq<char>>,
}

/// The mathematical value of an `Error`.
pub enum Failure {
    EmptySource,
    PointOutOfBound(Seq<char>),
    NoCommandGiven,
}

impl View for CommandTree {
    type V = CommandTreeView;

    closed spec fn view(&self) -> CommandTreeView {
        CommandTreeView { cmd: self.cmd@, args: self.args.deep_view() }
    }
}

impl View for Error {
    type V = Failure;

    open spec fn view(&self) -> Failure {
        match self {
            Error::EmptySource => Failure::EmptySource,
            Error::PointOutOfBound(detail) => Failure::PointOutOfBound(detail@),
            Error::NoCommandGiven => Failure::NoCommandGiven,
        }
    }
}

/// The arguments that the text `t` holds from position `from` on: after each
/// run of spaces, the maximal run of other characters, up to the end of `t`.
pub open spec fn words(t: Seq<char>, from: int) -> Seq<Seq<char>>
    decreases t.len() - from,
    via words_decreases
{
    if 0 <= from < t.len() {
        let a = run_end(t, from, CharClass::Blank);
        let b = run_end(t, a, CharClass::Solid);
        seq![t.subrange(a, b)] + words(t, b)
    } else {
        Seq::empty()
    }
}

#[via_fn]
proof fn words_decreases(t: Seq<char>, from: int) {
    if 0 <= from < t.len() {
        lemma_word_advances(t, from);
    }
}

/// One round of the argument scan consumes at least one character.
pub proof fn lemma_word_advances(t: Seq<char>, from: int)
    requires
        0 <= from < t.len(),
    ensures
        from <= run_end(t, from, CharClass::Blank) <= run_end(
            t,
            run_end(t, from, CharClass::Blank),
            CharClass::Solid,
        ) <= t.len(),
        from < run_end(t, run_end(t, from, CharClass::Blank), CharClass::Solid),
{
    let a = run_end(t, from, CharClass::Blank);
    lemma_run_end(t, from, CharClass::Blank);
    lemma_run_end(t, a, CharClass::Solid);
}

/// The text that a failed character access reports for the position `point`.
pub open spec fn out_of_bound_detail(point: nat) -> Seq<char> {
    decimal(point) + "th charactor doesn't found"@
}

/// What parsing the line `raw` in the mode `mode` gives: the line is trimmed;
/// an empty rest is `EmptySource`; the command is the maximal run of letters
/// at its start, whose absence is `NoCommandGiven` when a command is
/// required; the arguments are the words behind the command.
pub open spec fn parse_line(raw: Seq<char>, mode: ParseMode) -> Result<CommandTreeView, Failure> {
    let t = trimmed(raw);
    let e = run_end(t, 0, CharClass::Letter);
    if t.len() == 0 {
        Err(Failure::EmptySource)
    } else if e == 0 && mode == ParseMode::Exactly {
        Err(Failure::NoCommandGiven)
    } else {
        Ok(CommandTreeView { cmd: t.subrange(0, e), args: words(t, e) })
    }
}

/// The mathematical value of what `parse` returns.
pub open spec fn outcome(r: Result<CommandTree, Error>) -> Result<CommandTreeView, Failure> {
    match r {
        Ok(tree) => Ok(tree@),
        Err(e) => Err(e@),
    }
}

impl CommandTree {
    /// The command name; empty only where no command was required.
    pub fn cmd(&self) -> (r: &String)
        ensures
            r@ == self@.cmd,
    {
        &self.cmd
    }

    /// The arguments, in the order in which they stood in the line.
    pub fn args(&self) -> (r: &Vec<String>)
        ensures
            r.deep_view() == self@.args,
            r@.len() == self@.args.len(),
            forall|i: int| 0 <= i < r@.len() ==> (#[trigger] r@[i])@ == self@.args[i],
    {
        &self.args
    }
}

/// A cursor over a trimmed line.
pub struct Parser {
    src: String,
    point: usize,
    length: usize,
}

impl Parser {
    /// The trimmed line that is scanned.
    pub closed spec fn text(&self) -> Seq<char> {
        self.src@
    }

    /// The position of the next character to read.
    pub closed spec fn cursor(&self) -> int {
        self.point as int
    }

    /// The length of the text as it was recorded when the scanner was made.
    pub closed spec fn recorded_length(&self) -> int {
        self.length as int
    }

    /// The text is trimmed and not empty, its length is recorded, and the
    /// cursor stands inside it or at its end.
    pub open spec fn wf(&self) -> bool {
        &&& is_trimmed(self.text())
        &&& self.recorded_length() == self.text().len()
        &&& 0 <= self.cursor() <= self.text().len()
    }

    /// Trims `src_` and places the cursor at the start of what is left;
    /// a line that holds nothing but whitespace is refused.
    pub fn new(src_: String) -> (r: Result<Parser, Error>)
        ensures
            match r {
                Ok(p) => {
                    &&& trimmed(src_@).len() > 0
                    &&& p.wf()
                    &&& p.text() == trimmed(src_@)
                    &&& p.cursor() == 0
                },
                Err(e) => e@ == Failure::EmptySource && trimmed(src_@).len() == 0,
            },
    {
        let src = trim(src_.as_str());
        proof {
            lemma_trimmed(src_@);
        }
        if src.as_str().is_empty() {
            return Err(Error::EmptySource);
        }
        let length = src.as_str().unicode_len();
        Ok(Parser { src, point: 0, length })
    }

    /// The character under the cursor, or `PointOutOfBound` where the cursor
    /// stands at the end of the text.
    pub fn char_now(&self) -> (r: Result<char, Error>)
        requires
            self.wf(),
        ensures
            match r {
                Ok(c) => self.cursor() < self.text().len() && c == self.text()[self.cursor()],
                Err(e) => self.cursor() == self.text().len() && e@ == Failure::PointOutOfBound(
                    out_of_bound_detail(self.cursor() as nat),
                ),
            },
    {
        if self.point < self.length {
            Ok(self.src.as_str().get_char(self.point))
        } else {
            Err(
                Error::PointOutOfBound(
                    decimal_string(self.point).concat("th charactor doesn't found"),
                ),
            )
        }
    }

    /// Moves the cursor over the spaces under it, up to the first character
    /// that is no space or to the end of the text.
    pub fn skip_white(&mut self) -> (r: Result<(), Error>)
        requires
            old(self).wf(),
        ensures
            final(self).wf(),
            final(self).text() == old(self).text(),
            final(self).cursor() == run_end(old(self).text(), old(self).cursor(), CharClass::Blank),
            old(self).cursor() <= final(self).cursor() <= old(self).text().len(),
            r is Ok,
    {
        proof {
            lemma_run_end(self.src@, self.point as int, CharClass::Blank);
        }
        while self.point < self.length
            invariant_except_break
                self.wf(),
                self.src@ == old(self).src@,
                run_end(self.src@, old(self).point as int, CharClass::Blank) == run_end(
                    self.src@,
                    self.point as int,
                    CharClass::Blank,
                ),
            ensures
                self.wf(),
                self.src@ == old(self).src@,
                run_end(self.src@, old(self).point as int, CharClass::Blank) == self.point,
            decreases self.length - self.point,
        {
            let c = match self.char_now() {
                Ok(c) => c,
                Err(e) => {
                    return Err(e);
                },
            };
            if c == ' ' {
                self.point += 1;
            } else {
                break ;
            }
        }
        Ok(())
    }

    /// Reads the command name: the maximal run of ASCII letters under the
    /// cursor. An empty run is an error where the mode requires a command.
    pub fn get_cmd(&mut self, mode: ParseMode) -> (r: Result<String, Error>)
        requires
            old(self).wf(),
        ensures
            final(self).wf(),
            final(self).text() == old(self).text(),
            final(self).cursor() == run_end(
                old(self).text(),
                old(self).cursor(),
                CharClass::Letter,
            ),
            old(self).cursor() <= final(self).cursor() <= old(self).text().len(),
            match r {
                Ok(cmd) => {
                    &&& cmd@ == old(self).text().subrange(old(self).cursor(), final(self).cursor())
                    &&& mode == ParseMode::Exactly ==> cmd@.len() > 0
                },
                Err(e) => {
                    &&& e@ == Failure::NoCommandGiven
                    &&& mode == ParseMode::Exactly
                    &&& final(self).cursor() == old(self).cursor()
                },
            },
    {
        let start: usize = self.point;
        proof {
            lemma_run_end(self.src@, self.point as int, CharClass::Letter);
        }
        while self.point < self.length
            invariant_except_break
                self.wf(),
                self.src@ == old(self).src@,
                start <= self.point,
                run_end(self.src@, start as int, CharClass::Letter) == run_end(
                    self.src@,
                    self.point as int,
                    CharClass::Letter,
                ),
            ensures
                self.wf(),
                self.src@ == old(self).src@,
                start <= self.point,
                run_end(self.src@, start as int, CharClass::Letter) == self.point,
            decreases self.length - self.point,
        {
            let c = match self.char_now() {
                Ok(c) => c,
                Err(e) => {
                    return Err(e);
                },
            };
            if letter(c) {
                self.point += 1;
            } else {
                break ;
            }
        }
        let cmd = String::from_str(self.src.as_str().substring_char(start, self.point));
        if cmd.as_str().is_empty() && mode == ParseMode::Exactly {
            Err(Error::NoCommandGiven)
        } else {
            Ok(cmd)
        }
    }

    /// Reads the arguments from the cursor to the end of the text: after
    /// each run of spaces, the maximal run of other characters.
    pub fn get_args(&mut self) -> (r: Result<Vec<String>, Error>)
        requires
            old(self).wf(),
        ensures
            final(self).wf(),
            final(self).text() == old(self).text(),
            final(self).cursor() == old(self).text().len(),
            match r {
                Ok(args) => args.deep_view() == words(old(self).text(), old(self).cursor()),
                Err(_) => false,
            },
    {
        let mut args: Vec<String> = Vec::new();
        assert(args.deep_view() =~= Seq::<Seq<char>>::empty());
        while self.point < self.length
            invariant
                self.wf(),
                self.src@ == old(self).src@,
                args.deep_view() + words(self.src@, self.point as int) == words(
                    self.src@,
                    old(self).point as int,
                ),
            decreases self.length - self.point,
        {
            let ghost from = self.point as int;
            let ghost before = args.deep_view();
            proof {
                lemma_word_advances(self.src@, from);
            }
            match self.skip_white() {
                Ok(()) => {},
                Err(e) => {
                    return Err(e);
                },
            }
            let start: usize = self.point;
            while self.point < self.length
                invariant_except_break
                    self.wf(),
                    self.src@ == old(self).src@,
                    start <= self.point,
                    run_end(self.src@, start as int, CharClass::Solid) == run_end(
                        self.src@,
                        self.point as int,
                        CharClass::Solid,
                    ),
                ensures
                    self.wf(),
                    self.src@ == old(self).src@,
                    start <= self.point,
                    run_end(self.src@, start as int, CharClass::Solid) == self.point,
                decreases self.length - self.point,
            {
                let c = match self.char_now() {
                    Ok(c) => c,
                    Err(e) => {
                        return Err(e);
                    },
                };
                if c != ' ' {
                    self.point += 1;
                } else {
                    break ;
                }
            }
            let arg = String::from_str(self.src.as_str().substring_char(start, self.point));
            args.push(arg);
            assert(args.deep_view() =~= before.push(arg@));
            assert(before.push(arg@) + words(self.src@, self.point as int) =~= before + words(
                self.src@,
                from,
            ));
        }
        assert(args.deep_view() + Seq::<Seq<char>>::empty() =~= args.deep_view());
        Ok(args)
    }

    /// Reads the command name and then the arguments.
    pub fn parse(&mut self, mode: ParseMode) -> (r: Result<CommandTree, Error>)
        requires
            old(self).wf(),
        ensures
            final(self).wf(),
            final(self).text() == old(self).text(),
            old(self).cursor() <= final(self).cursor() <= old(self).text().len(),
            match r {
                Ok(tree) => {
                    let e = run_end(old(self).text(), old(self).cursor(), CharClass::Letter);
                    &&& tree@.cmd == old(self).text().subrange(old(self).cursor(), e)
                    &&& tree@.args == words(old(self).text(), e)
                    &&& mode == ParseMode::Exactly ==> e > old(self).cursor()
                    &&& final(self).cursor() == old(self).text().len()
                },
                Err(e) => {
                    &&& e@ == Failure::NoCommandGiven
                    &&& mode == ParseMode::Exactly
                    &&& run_end(old(self).text(), old(self).cursor(), CharClass::Letter) == old(
                        self,
                    ).cursor()
                    &&& final(self).cursor() == old(self).cursor()
                },
            },
    {
        proof {
            lemma_run_end(self.src@, self.point as int, CharClass::Letter);
        }
        let cmd: String = match self.get_cmd(mode) {
            Ok(cmd) => cmd,
            Err(e) => {
                return Err(e);
            },
        };
        let args: Vec<String> = match self.get_args() {
            Ok(args) => args,
            Err(e) => {
                return Err(e);
            },
        };
        Ok(CommandTree { cmd, args })
    }
}

/// Parses one line: the whitespace round it is removed, the leading run of
/// ASCII letters is the command, and the words behind it are the arguments.
pub fn parse(src: String, mode: ParseMode) -> (r: Result<CommandTree, Error>)
    ensures
        outcome(r) == parse_line(src@, mode),
{
    let mut parser = match Parser::new(src) {
        Ok(parser) => parser,
        Err(e) => {
            return Err(e);
        },
    };
    proof {
        lemma_run_end(parser.text(), 0, CharClass::Letter);
    }
    match parser.parse(mode) {
        Ok(tree) => Ok(tree),
        Err(e) => Err(e),
    }
}

} // verus!
