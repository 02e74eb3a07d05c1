//! What holds of every parse, stated over the model of `parse` and proved.
use vstd::prelude::*;
use crate::parser::parse::{
    lemma_word_advances, parse_line, words, CommandTreeView, Failure, ParseMode,
};
use crate::parser::text::{
    in_class, is_letter, is_trimmed, is_whitespace, lemma_run_end, lemma_run_end_unique,
    lemma_run_start, lemma_run_start_unique, lemma_trimmed, run_end, run_start, trimmed,
    CharClass,
};

verus! {

/// Whether every character of `s` is whitespace.
pub open spec fn all_whitespace(s: Seq<char>) -> bool {
    forall|i: int| 0 <= i < s.len() ==> is_whitespace(#[trigger] s[i])
}

/// Whether every character of `s` is an ASCII letter.
pub open spec fn all_letters(s: Seq<char>) -> bool {
    forall|i: int| 0 <= i < s.len() ==> is_letter(#[trigger] s[i])
}

/// A line is refused as `EmptySource` exactly when it holds nothing but
/// whitespace, the empty line included, whatever the mode.
pub proof fn law_blank_line_is_empty_source(raw: Seq<char>, mode: ParseMode)
    ensures
        all_whitespace(raw) <==> (parse_line(raw, mode) matches Err(Failure::EmptySource)),
{
    lemma_trimmed(raw);
}

/// A line is refused as `NoCommandGiven` exactly when a command is required
/// and the first character behind the leading whitespace is no letter.
pub proof fn law_no_command_given(raw: Seq<char>, mode: ParseMode)
    ensures
        (parse_line(raw, mode) matches Err(Failure::NoCommandGiven)) <==> {
            &&& mode == ParseMode::Exactly
            &&& trimmed(raw).len() > 0
            &&& !is_letter(trimmed(raw)[0])
        },
{
    lemma_run_end(trimmed(raw), 0, CharClass::Letter);
}

/// No line makes the parse read behind the end of its text.
pub proof fn law_never_out_of_bound(raw: Seq<char>, mode: ParseMode)
    ensures
        !(parse_line(raw, mode) matches Err(Failure::PointOutOfBound(_))),
{
}

/// The two modes differ only where a command is missing: whatever parses
/// with a required command parses to the same with an optional one, and
/// with an optional command only a blank line is refused.
pub proof fn law_modes_agree(raw: Seq<char>)
    ensures
        parse_line(raw, ParseMode::Exactly) is Ok ==> parse_line(raw, ParseMode::Fuzzy)
            == parse_line(raw, ParseMode::Exactly),
        parse_line(raw, ParseMode::Fuzzy) is Err ==> all_whitespace(raw),
{
    lemma_trimmed(raw);
}

/// The command of a parsed line is made of letters, stands at the start of
/// the trimmed line, and is followed by no further letter.
pub proof fn law_command_is_maximal(raw: Seq<char>, mode: ParseMode)
    ensures
        parse_line(raw, mode) matches Ok(tree) ==> {
            &&& all_letters(tree.cmd)
            &&& tree.cmd.len() <= trimmed(raw).len()
            &&& tree.cmd == trimmed(raw).subrange(0, tree.cmd.len() as int)
            &&& tree.cmd.len() < trimmed(raw).len() ==> !is_letter(
                trimmed(raw)[tree.cmd.len() as int],
            )
            &&& mode == ParseMode::Exactly ==> tree.cmd.len() > 0
        },
{
    let t = trimmed(raw);
    lemma_run_end(t, 0, CharClass::Letter);
    let e = run_end(t, 0, CharClass::Letter);
    if t.len() > 0 {
        assert forall|i: int| 0 <= i < e implies is_letter(#[trigger] t.subrange(0, e)[i]) by {
            assert(in_class(t[i], CharClass::Letter));
        }
    }
}

/// Where a line holds more than whitespace and its first run of characters
/// other than the space holds no ASCII letter, a required command is
/// missing, and an optional one is empty, with the whole line as arguments.
pub proof fn law_first_run_without_letters(raw: Seq<char>)
    requires
        !all_whitespace(raw),
        forall|i: int|
            0 <= i < run_end(trimmed(raw), 0, CharClass::Solid) ==> !is_letter(
                #[trigger] trimmed(raw)[i],
            ),
    ensures
        parse_line(raw, ParseMode::Exactly) matches Err(Failure::NoCommandGiven),
        parse_line(raw, ParseMode::Fuzzy) matches Ok(tree) && tree.cmd == Seq::<char>::empty()
            && tree.args == words(trimmed(raw), 0),
{
    let t = trimmed(raw);
    lemma_trimmed(raw);
    lemma_run_end(t, 0, CharClass::Solid);
    lemma_run_end(t, 0, CharClass::Letter);
    assert(in_class(t[0], CharClass::Solid));
    assert(t.subrange(0, 0) =~= Seq::<char>::empty());
}

/// A line that begins with letters has the maximal run of them as its
/// command, whatever the mode.
pub proof fn law_command_is_leading_letters(letters: Seq<char>, rest: Seq<char>, mode: ParseMode)
    requires
        letters.len() > 0,
        all_letters(letters),
        rest.len() > 0 ==> !is_letter(rest[0]),
    ensures
        parse_line(letters + rest, mode) matches Ok(tree) && tree.cmd == letters,
{
    let raw = letters + rest;
    let n = letters.len() as int;
    let t = trimmed(raw);
    let b = run_start(raw, raw.len() as int, CharClass::White);
    assert forall|i: int| 0 <= i < n implies is_letter(#[trigger] raw[i]) by {
        assert(raw[i] == letters[i]);
    }
    assert(is_letter(raw[0]));
    lemma_run_start(raw, raw.len() as int, CharClass::White);
    if b < n {
        assert(in_class(raw[b], CharClass::White));
        assert(is_letter(raw[b]));
    }
    assert(t =~= raw.subrange(0, b));
    assert forall|i: int| 0 <= i < n implies in_class(#[trigger] t[i], CharClass::Letter) by {
        assert(t[i] == raw[i]);
    }
    if n < t.len() {
        assert(t[n] == rest[0]);
    }
    lemma_run_end_unique(t, 0, CharClass::Letter, n);
    assert(t.subrange(0, n) =~= letters);
}

/// Whitespace round a line changes nothing: the line is trimmed the same.
pub proof fn law_trim_ignores_surrounding_whitespace(
    left: Seq<char>,
    raw: Seq<char>,
    right: Seq<char>,
)
    requires
        all_whitespace(left),
        all_whitespace(right),
    ensures
        trimmed(left + raw + right) == trimmed(raw),
{
    let s = left + raw + right;
    let k = left.len() as int;
    let a = run_end(raw, 0, CharClass::White);
    let b = run_start(raw, raw.len() as int, CharClass::White);
    lemma_trimmed(raw);
    lemma_trimmed(s);
    lemma_run_end(raw, 0, CharClass::White);
    lemma_run_start(raw, raw.len() as int, CharClass::White);
    assert forall|i: int| 0 <= i < s.len() implies #[trigger] s[i] == (if i < k {
        left[i]
    } else if i < k + raw.len() {
        raw[i - k]
    } else {
        right[i - k - raw.len()]
    }) by {}
    if a < b {
        assert forall|i: int| 0 <= i < k + a implies in_class(#[trigger] s[i], CharClass::White) by {
            if i >= k {
                assert(in_class(raw[i - k], CharClass::White));
            }
        }
        assert(s[k + a] == raw[a]);
        lemma_run_end_unique(s, 0, CharClass::White, k + a);
        assert forall|i: int| k + b <= i < s.len() implies in_class(
            #[trigger] s[i],
            CharClass::White,
        ) by {
            if i < k + raw.len() {
                assert(in_class(raw[i - k], CharClass::White));
            }
        }
        assert(s[k + b - 1] == raw[b - 1]);
        lemma_run_start_unique(s, s.len() as int, CharClass::White, k + b);
        assert(s.subrange(k + a, k + b) =~= raw.subrange(a, b));
    } else {
        assert(all_whitespace(raw));
        assert forall|i: int| 0 <= i < s.len() implies is_whitespace(#[trigger] s[i]) by {
            if k <= i < k + raw.len() {
                assert(is_whitespace(raw[i - k]));
            }
        }
        assert(trimmed(s) =~= trimmed(raw));
    }
}

/// Whitespace round a line changes nothing of what parsing it gives.
pub proof fn law_parse_ignores_surrounding_whitespace(
    left: Seq<char>,
    raw: Seq<char>,
    right: Seq<char>,
    mode: ParseMode,
)
    requires
        all_whitespace(left),
        all_whitespace(right),
    ensures
        parse_line(left + raw + right, mode) == parse_line(raw, mode),
{
    law_trim_ignores_surrounding_whitespace(left, raw, right);
}

/// Trimming twice is trimming once, and so is parsing what was trimmed.
pub proof fn law_trim_idempotent(raw: Seq<char>, mode: ParseMode)
    ensures
        trimmed(trimmed(raw)) == trimmed(raw),
        parse_line(trimmed(raw), mode) == parse_line(raw, mode),
{
    let t = trimmed(raw);
    lemma_trimmed(raw);
    if t.len() > 0 {
        assert(!in_class(t[0], CharClass::White));
        assert(!in_class(t[t.len() - 1], CharClass::White));
        assert(t.subrange(0, t.len() as int) =~= t);
    } else {
        assert(trimmed(t) =~= t);
    }
}

/// In a text that does not end with a space, every word is a run of one
/// character or more, none of them a space.
pub proof fn lemma_words_are_solid(t: Seq<char>, from: int)
    requires
        0 <= from <= t.len(),
        t.len() > 0 ==> t[t.len() - 1] != ' ',
    ensures
        forall|i: int|
            0 <= i < words(t, from).len() ==> (#[trigger] words(t, from)[i]).len() > 0,
        forall|i: int, j: int|
            0 <= i < words(t, from).len() && 0 <= j < words(t, from)[i].len() ==> (
            #[trigger] words(t, from)[i][j]) != ' ',
    decreases t.len() - from,
{
    if from < t.len() {
        let a = run_end(t, from, CharClass::Blank);
        let b = run_end(t, a, CharClass::Solid);
        lemma_word_advances(t, from);
        lemma_run_end(t, from, CharClass::Blank);
        lemma_run_end(t, a, CharClass::Solid);
        if a == t.len() {
            assert(in_class(t[t.len() - 1], CharClass::Blank));
        }
        let w = t.subrange(a, b);
        assert forall|j: int| 0 <= j < w.len() implies #[trigger] w[j] != ' ' by {
            assert(in_class(t[a + j], CharClass::Solid));
        }
        lemma_words_are_solid(t, b);
        assert(words(t, from) == seq![w] + words(t, b));
        assert forall|i: int| 0 <= i < words(t, from).len() implies (#[trigger] words(
            t,
            from,
        )[i]).len() > 0 && (forall|j: int|
            0 <= j < words(t, from)[i].len() ==> (#[trigger] words(t, from)[i][j]) != ' ') by {
            if i > 0 {
                assert(words(t, from)[i] == words(t, b)[i - 1]);
            } else {
                assert(words(t, from)[0] == w);
            }
        }
    }
}

/// No argument of a parsed line is empty, and none holds a space: spaces
/// between two arguments, however many, separate them and nothing more.
pub proof fn law_arguments_are_solid(raw: Seq<char>, mode: ParseMode)
    ensures
        parse_line(raw, mode) matches Ok(tree) ==> {
            &&& forall|i: int| 0 <= i < tree.args.len() ==> (#[trigger] tree.args[i]).len() > 0
            &&& forall|i: int, j: int|
                0 <= i < tree.args.len() && 0 <= j < tree.args[i].len() ==> (
                #[trigger] tree.args[i][j]) != ' '
        },
{
    let t = trimmed(raw);
    lemma_trimmed(raw);
    if t.len() > 0 {
        lemma_run_end(t, 0, CharClass::Letter);
        lemma_words_are_solid(t, run_end(t, 0, CharClass::Letter));
    }
}

/// A run of `n` spaces.
pub open spec fn spaces(n: nat) -> Seq<char> {
    Seq::new(n, |i: int| ' ')
}

/// The words `ws` written one behind the other, `gaps[i]` spaces before the
/// word `ws[i]`.
pub open spec fn spaced(ws: Seq<Seq<char>>, gaps: Seq<nat>) -> Seq<char>
    decreases ws.len(),
{
    if ws.len() == 0 {
        Seq::empty()
    } else {
        spaces(gaps[0]) + ws[0] + spaced(ws.skip(1), gaps.skip(1))
    }
}

/// Words that can be told apart again: none is empty, none holds a space,
/// and one space or more stands before each.
pub open spec fn separable(ws: Seq<Seq<char>>, gaps: Seq<nat>) -> bool {
    &&& gaps.len() == ws.len()
    &&& forall|i: int| 0 <= i < gaps.len() ==> #[trigger] gaps[i] >= 1
    &&& forall|i: int| 0 <= i < ws.len() ==> (#[trigger] ws[i]).len() > 0
    &&& forall|i: int, j: int|
        0 <= i < ws.len() && 0 <= j < ws[i].len() ==> (#[trigger] ws[i][j]) != ' '
}

/// Where a run ends depends on nothing before the position it starts at.
pub proof fn lemma_run_end_shift(p: Seq<char>, s: Seq<char>, i: int, k: CharClass)
    requires
        0 <= i <= s.len(),
    ensures
        run_end(p + s, p.len() + i, k) == p.len() + run_end(s, i, k),
    decreases s.len() - i,
{
    if i < s.len() {
        assert((p + s)[p.len() + i] == s[i]);
        if in_class(s[i], k) {
            lemma_run_end_shift(p, s, i + 1, k);
        }
    }
}

/// The words from a position on depend on nothing before it.
pub proof fn lemma_words_shift(p: Seq<char>, s: Seq<char>, i: int)
    requires
        0 <= i <= s.len(),
    ensures
        words(p + s, p.len() + i) == words(s, i),
    decreases s.len() - i,
{
    if i < s.len() {
        let a = run_end(s, i, CharClass::Blank);
        let b = run_end(s, a, CharClass::Solid);
        lemma_word_advances(s, i);
        lemma_run_end_shift(p, s, i, CharClass::Blank);
        lemma_run_end_shift(p, s, a, CharClass::Solid);
        lemma_words_shift(p, s, b);
        assert((p + s).subrange(p.len() + a, p.len() + b) =~= s.subrange(a, b));
    }
}

/// Spaced words begin with a space and end as the last word ends.
pub proof fn lemma_spaced_ends(ws: Seq<Seq<char>>, gaps: Seq<nat>)
    requires
        separable(ws, gaps),
        ws.len() > 0,
    ensures
        spaced(ws, gaps).len() > 0,
        spaced(ws, gaps)[0] == ' ',
        spaced(ws, gaps).last() == ws.last().last(),
    decreases ws.len(),
{
    let head = spaces(gaps[0]) + ws[0];
    let tail = spaced(ws.skip(1), gaps.skip(1));
    assert(head[0] == ' ');
    assert(head.last() == ws[0].last());
    if ws.len() > 1 {
        lemma_separable_rest(ws, gaps);
        lemma_spaced_ends(ws.skip(1), gaps.skip(1));
        assert(ws.skip(1).last() == ws.last());
    } else {
        assert(ws.skip(1).len() == 0);
        assert(tail.len() == 0);
    }
}

/// What holds of words and their gaps holds of all but the first.
pub proof fn lemma_separable_rest(ws: Seq<Seq<char>>, gaps: Seq<nat>)
    requires
        separable(ws, gaps),
        ws.len() > 0,
    ensures
        separable(ws.skip(1), gaps.skip(1)),
{
    let ws1 = ws.skip(1);
    let gaps1 = gaps.skip(1);
    assert forall|i: int| 0 <= i < gaps1.len() implies #[trigger] gaps1[i] >= 1 by {
        assert(gaps1[i] == gaps[i + 1]);
    }
    assert forall|i: int| 0 <= i < ws1.len() implies (#[trigger] ws1[i]).len() > 0 by {
        assert(ws1[i] == ws[i + 1]);
    }
    assert forall|i: int, j: int| 0 <= i < ws1.len() && 0 <= j < ws1[i].len() implies (
    #[trigger] ws1[i][j]) != ' ' by {
        assert(ws1[i] == ws[i + 1]);
        assert(ws[i + 1][j] != ' ');
    }
}

/// The argument scan finds again the words that were written with spaces
/// between them, in their order.
pub proof fn lemma_words_of_spaced(ws: Seq<Seq<char>>, gaps: Seq<nat>)
    requires
        separable(ws, gaps),
    ensures
        words(spaced(ws, gaps), 0) == ws,
    decreases ws.len(),
{
    let line = spaced(ws, gaps);
    if ws.len() == 0 {
        assert(words(line, 0) =~= ws);
    } else {
        let g = gaps[0] as int;
        let w = ws[0];
        let head = spaces(gaps[0]) + w;
        let tail = spaced(ws.skip(1), gaps.skip(1));
        let e = g + w.len();
        lemma_separable_rest(ws, gaps);
        lemma_words_of_spaced(ws.skip(1), gaps.skip(1));
        assert(line == head + tail);
        assert forall|i: int| 0 <= i < g implies in_class(#[trigger] line[i], CharClass::Blank) by {
            assert(line[i] == spaces(gaps[0])[i]);
        }
        assert forall|i: int| g <= i < e implies in_class(#[trigger] line[i], CharClass::Solid) by {
            assert(line[i] == w[i - g]);
        }
        assert(line[g] == w[0]);
        if e < line.len() {
            assert(ws.skip(1).len() > 0);
            lemma_spaced_ends(ws.skip(1), gaps.skip(1));
            assert(line[e] == tail[0]);
        }
        lemma_run_end_unique(line, 0, CharClass::Blank, g);
        lemma_run_end_unique(line, g, CharClass::Solid, e);
        lemma_words_shift(head, tail, 0);
        assert(line.subrange(g, e) =~= w);
        assert(words(line, 0) =~= seq![w] + ws.skip(1));
        assert(seq![w] + ws.skip(1) =~= ws);
    }
}

/// A command name followed by words, with one space or more before each,
/// parses to that name and those words in their order, whatever the mode
/// and however many spaces stand between them.
pub proof fn law_parse_of_spaced_words(
    cmd: Seq<char>,
    ws: Seq<Seq<char>>,
    gaps: Seq<nat>,
    mode: ParseMode,
)
    requires
        cmd.len() > 0,
        all_letters(cmd),
        separable(ws, gaps),
        ws.len() > 0 ==> !is_whitespace(ws.last().last()),
    ensures
        parse_line(cmd + spaced(ws, gaps), mode) == Ok::<CommandTreeView, Failure>(
            CommandTreeView { cmd: cmd, args: ws },
        ),
{
    let line = spaced(ws, gaps);
    let raw = cmd + line;
    let n = cmd.len() as int;
    assert(raw[0] == cmd[0]);
    assert(is_letter(cmd[0]));
    if ws.len() > 0 {
        lemma_spaced_ends(ws, gaps);
        assert(raw.last() == line.last());
        assert(raw[n] == line[0]);
    } else {
        assert(line.len() == 0);
        assert(raw.last() == cmd.last());
        assert(is_letter(cmd.last()));
    }
    assert(!in_class(raw[0], CharClass::White));
    assert(!in_class(raw[raw.len() - 1], CharClass::White));
    assert(trimmed(raw) =~= raw);
    assert forall|i: int| 0 <= i < n implies in_class(#[trigger] raw[i], CharClass::Letter) by {
        assert(raw[i] == cmd[i]);
    }
    lemma_run_end_unique(raw, 0, CharClass::Letter, n);
    lemma_words_shift(cmd, line, 0);
    lemma_words_of_spaced(ws, gaps);
    assert(raw.subrange(0, n) =~= cmd);
}

} // verus!
