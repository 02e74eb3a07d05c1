//! Character classes, runs of characters, trimming and decimal notation.
use vstd::prelude::*;

verus! {

/// Whether `c` has the Unicode property White_Space.
pub open spec fn is_whitespace(c: char) -> bool {
    ||| '\u{9}' <= c <= '\u{d}'
    ||| c == ' '
    ||| c == '\u{85}'
    ||| c == '\u{a0}'
    ||| c == '\u{1680}'
    ||| '\u{2000}' <= c <= '\u{200a}'
    ||| c == '\u{2028}'
    ||| c == '\u{2029}'
    ||| c == '\u{202f}'
    ||| c == '\u{205f}'
    ||| c == '\u{3000}'
}

/// Whether `c` is an ASCII letter, `A` to `Z` or `a` to `z`.
pub open spec fn is_letter(c: char) -> bool {
    'A' <= c <= 'Z' || 'a' <= c <= 'z'
}

/// The classes of characters that the scanner tells apart.
pub enum CharClass {
    /// Unicode whitespace, removed from both ends of a line.
    White,
    /// The space character alone, which separates arguments.
    Blank,
    /// Any character but the space: what an argument is made of.
    Solid,
    /// ASCII letters: what a command name is made of.
    Letter,
}

/// Whether `c` belongs to the class `k`.
pub open spec fn in_class(c: char, k: CharClass) -> bool {
    match k {
        CharClass::White => is_whitespace(c),
        CharClass::Blank => c == ' ',
        CharClass::Solid => c != ' ',
        CharClass::Letter => is_letter(c),
    }
}

/// Where the maximal run of class `k` that starts at `from` ends: the first
/// position at or after `from` that is the end of `s` or holds a character
/// outside `k`.
pub open spec fn run_end(s: Seq<char>, from: int, k: CharClass) -> int
    decreases s.len() - from,
{
    if 0 <= from < s.len() && in_class(s[from], k) {
        run_end(s, from + 1, k)
    } else {
        from
    }
}

/// Where the maximal run of class `k` that ends before `to` starts.
pub open spec fn run_start(s: Seq<char>, to: int, k: CharClass) -> int
    decreases to,
{
    if 0 < to <= s.len() && in_class(s[to - 1], k) {
        run_start(s, to - 1, k)
    } else {
        to
    }
}

/// `s` without its leading and trailing whitespace.
pub open spec fn trimmed(s: Seq<char>) -> Seq<char> {
    let a = run_end(s, 0, CharClass::White);
    let b = run_start(s, s.len() as int, CharClass::White);
    if a < b {
        s.subrange(a, b)
    } else {
        Seq::empty()
    }
}

/// A text that is not empty and neither begins nor ends with whitespace.
pub open spec fn is_trimmed(t: Seq<char>) -> bool {
    t.len() > 0 && !is_whitespace(t[0]) && !is_whitespace(t[t.len() - 1])
}

/// `run_end` is the one position that closes the run: everything before it
/// from `from` on is in the class, and the character at it, if any, is not.
pub proof fn lemma_run_end(s: Seq<char>, from: int, k: CharClass)
    requires
        0 <= from <= s.len(),
    ensures
        from <= run_end(s, from, k) <= s.len(),
        forall|i: int| from <= i < run_end(s, from, k) ==> in_class(#[trigger] s[i], k),
        run_end(s, from, k) < s.len() ==> !in_class(s[run_end(s, from, k)], k),
    decreases s.len() - from,
{
    if from < s.len() && in_class(s[from], k) {
        lemma_run_end(s, from + 1, k);
    }
}

/// Any position that closes a run of class `k` from `from` is `run_end`.
pub proof fn lemma_run_end_unique(s: Seq<char>, from: int, k: CharClass, e: int)
    requires
        0 <= from <= e <= s.len(),
        forall|i: int| from <= i < e ==> in_class(#[trigger] s[i], k),
        e < s.len() ==> !in_class(s[e], k),
    ensures
        run_end(s, from, k) == e,
    decreases e - from,
{
    if from < e {
        lemma_run_end_unique(s, from + 1, k, e);
    }
}

/// `run_start` is the one position that opens the run before `to`.
pub proof fn lemma_run_start(s: Seq<char>, to: int, k: CharClass)
    requires
        0 <= to <= s.len(),
    ensures
        0 <= run_start(s, to, k) <= to,
        forall|i: int| run_start(s, to, k) <= i < to ==> in_class(#[trigger] s[i], k),
        run_start(s, to, k) > 0 ==> !in_class(s[run_start(s, to, k) - 1], k),
    decreases to,
{
    if 0 < to && in_class(s[to - 1], k) {
        lemma_run_start(s, to - 1, k);
    }
}

/// Any position that opens a run of class `k` before `to` is `run_start`.
pub proof fn lemma_run_start_unique(s: Seq<char>, to: int, k: CharClass, b: int)
    requires
        0 <= b <= to <= s.len(),
        forall|i: int| b <= i < to ==> in_class(#[trigger] s[i], k),
        b > 0 ==> !in_class(s[b - 1], k),
    ensures
        run_start(s, to, k) == b,
    decreases to - b,
{
    if b < to {
        lemma_run_start_unique(s, to - 1, k, b);
    }
}

/// Trimming leaves either nothing, exactly when `s` is all whitespace, or a
/// text that neither begins nor ends with whitespace.
pub proof fn lemma_trimmed(s: Seq<char>)
    ensures
        trimmed(s).len() == 0 <==> (forall|i: int| 0 <= i < s.len() ==> is_whitespace(#[trigger] s[i])),
        trimmed(s).len() > 0 ==> is_trimmed(trimmed(s)),
{
    let a = run_end(s, 0, CharClass::White);
    let b = run_start(s, s.len() as int, CharClass::White);
    lemma_run_end(s, 0, CharClass::White);
    lemma_run_start(s, s.len() as int, CharClass::White);
    if a < b {
        assert(trimmed(s)[0] == s[a]);
        assert(trimmed(s)[b - a - 1] == s[b - 1]);
        assert(!in_class(s[a], CharClass::White));
    } else {
        assert forall|i: int| 0 <= i < s.len() implies is_whitespace(#[trigger] s[i]) by {
            assert(in_class(s[i], CharClass::White));
        }
    }
}

/// The decimal digit that stands for `d`, for `d` below ten.
pub open spec fn digit(d: nat) -> char {
    if d == 0 {
        '0'
    } else if d == 1 {
        '1'
    } else if d == 2 {
        '2'
    } else if d == 3 {
        '3'
    } else if d == 4 {
        '4'
    } else if d == 5 {
        '5'
    } else if d == 6 {
        '6'
    } else if d == 7 {
        '7'
    } else if d == 8 {
        '8'
    } else {
        '9'
    }
}

/// `n` in decimal notation, without leading zeros.
pub open spec fn decimal(n: nat) -> Seq<char>
    decreases n,
{
    if n < 10 {
        seq![digit(n)]
    } else {
        decimal(n / 10).push(digit(n % 10))
    }
}

/// Tells whether `c` is Unicode whitespace.
pub fn whitespace(c: char) -> (r: bool)
    ensures
        r == is_whitespace(c),
{
    ('\u{9}' <= c && c <= '\u{d}') || c == ' ' || c == '\u{85}' || c == '\u{a0}' || c == '\u{1680}'
        || ('\u{2000}' <= c && c <= '\u{200a}') || c == '\u{2028}' || c == '\u{2029}' || c
        == '\u{202f}' || c == '\u{205f}' || c == '\u{3000}'
}

/// Tells whether `c` is an ASCII letter.
pub fn letter(c: char) -> (r: bool)
    ensures
        r == is_letter(c),
{
    ('A' <= c && c <= 'Z') || ('a' <= c && c <= 'z')
}

/// Returns `s` without its leading and trailing whitespace.
pub fn trim(s: &str) -> (r: String)
    ensures
        r@ == trimmed(s@),
{
    let n: usize = s.unicode_len();
    let mut a: usize = 0;
    while a < n && whitespace(s.get_char(a))
        invariant
            n == s@.len(),
            a <= n,
            run_end(s@, 0, CharClass::White) == run_end(s@, a as int, CharClass::White),
        decreases n - a,
    {
        a += 1;
    }
    let mut b: usize = n;
    while b > a && whitespace(s.get_char(b - 1))
        invariant
            n == s@.len(),
            a <= b <= n,
            a < n ==> a < b && !is_whitespace(s@[a as int]),
            run_start(s@, n as int, CharClass::White) == run_start(s@, b as int, CharClass::White),
        decreases b,
    {
        b -= 1;
    }
    proof {
        lemma_run_start(s@, n as int, CharClass::White);
        lemma_run_end(s@, 0, CharClass::White);
        reveal_strlit("");
    }
    if a < b {
        String::from_str(s.substring_char(a, b))
    } else {
        let r = String::from_str("");
        assert(r@ =~= trimmed(s@));
        r
    }
}

fn digit_text(d: usize) -> (r: &'static str)
    requires
        d < 10,
    ensures
        r@ == seq![digit(d as nat)],
{
    proof {
        reveal_strlit("0");
        reveal_strlit("1");
        reveal_strlit("2");
        reveal_strlit("3");
        reveal_strlit("4");
        reveal_strlit("5");
        reveal_strlit("6");
        reveal_strlit("7");
        reveal_strlit("8");
        reveal_strlit("9");
    }
    let r = if d == 0 {
        "0"
    } else if d == 1 {
        "1"
    } else if d == 2 {
        "2"
    } else if d == 3 {
        "3"
    } else if d == 4 {
        "4"
    } else if d == 5 {
        "5"
    } else if d == 6 {
        "6"
    } else if d == 7 {
        "7"
    } else if d == 8 {
        "8"
    } else {
        "9"
    };
    assert(r@ =~= seq![digit(d as nat)]);
    r
}

/// Writes `n` in decimal notation.
pub fn decimal_string(n: usize) -> (r: String)
    ensures
        r@ == decimal(n as nat),
    decreases n,
{
    if n < 10 {
        String::from_str(digit_text(n))
    } else {
        let r = decimal_string(n / 10).concat(digit_text(n % 10));
        assert(r@ =~= decimal(n as nat));
        r
    }
}

} // verus!
