//! The fixed grammar of recognized ANSI escape sequences.
//!
//! A recognized sequence starts with the escape character followed by `[`
//! and one of five tails: a cursor-position sequence `<digits>;<digits>`
//! ending in `H` or `f`, a cursor move `<digits>` ending in one of
//! `A B C D`, one of the short control tails `s`, `u`, `2J`, `K`, a select
//! graphic rendition (SGR) tail of digits and semicolons ending in `m`, or
//! a mode tail `=<digits>` ending in `h` or `I`.  The tails are tried in
//! that order and the first that fits wins.  Any text that fits no
//! alternative is literal text, however escape-like it looks.

use vstd::prelude::*;

verus! {

/// The escape character that introduces every recognized sequence.
pub const ESC: char = '\x1b';

pub open spec fn is_digit(c: char) -> bool {
    '0' <= c && c <= '9'
}

/// Position of the first non-digit character at or after `j`, or the end.
pub open spec fn digit_run_end(s: Seq<char>, j: int) -> int
    decreases s.len() - j,
{
    if j < 0 || j >= s.len() {
        j
    } else if is_digit(s[j]) {
        digit_run_end(s, j + 1)
    } else {
        j
    }
}

pub open spec fn is_param_char(c: char) -> bool {
    is_digit(c) || c == ';'
}

/// Position of the first character at or after `j` that is neither a digit
/// nor a semicolon, or the end.
pub open spec fn param_run_end(s: Seq<char>, j: int) -> int
    decreases s.len() - j,
{
    if j < 0 || j >= s.len() {
        j
    } else if is_param_char(s[j]) {
        param_run_end(s, j + 1)
    } else {
        j
    }
}

/// End of a cursor-position tail `<digits>;<digits>(H|f)` starting at `j`.
pub open spec fn alt_cursor_pos_end(s: Seq<char>, j: int) -> Option<int> {
    let d1 = digit_run_end(s, j);
    if d1 > j && d1 < s.len() && s[d1] == ';' {
        let d2 = digit_run_end(s, d1 + 1);
        if d2 > d1 + 1 && d2 < s.len() && (s[d2] == 'H' || s[d2] == 'f') {
            Some(d2 + 1)
        } else {
            None
        }
    } else {
        None
    }
}

/// End of a cursor-move tail `<digits>(A|B|C|D)` starting at `j`.
pub open spec fn alt_cursor_move_end(s: Seq<char>, j: int) -> Option<int> {
    let d = digit_run_end(s, j);
    if d > j && d < s.len() && (s[d] == 'A' || s[d] == 'B' || s[d] == 'C' || s[d] == 'D') {
        Some(d + 1)
    } else {
        None
    }
}

/// End of a short control tail `s`, `u`, `2J` or `K` starting at `j`.
pub open spec fn alt_control_end(s: Seq<char>, j: int) -> Option<int> {
    if j >= 0 && j < s.len() && (s[j] == 's' || s[j] == 'u' || s[j] == 'K') {
        Some(j + 1)
    } else if j >= 0 && j + 1 < s.len() && s[j] == '2' && s[j + 1] == 'J' {
        Some(j + 2)
    } else {
        None
    }
}

/// End of an SGR tail `[0-9;]*m` starting at `j`.
pub open spec fn alt_sgr_end(s: Seq<char>, j: int) -> Option<int> {
    let p = param_run_end(s, j);
    if p < s.len() && s[p] == 'm' {
        Some(p + 1)
    } else {
        None
    }
}

/// End of a mode tail `=<digits>(h|I)` starting at `j`.
pub open spec fn alt_mode_end(s: Seq<char>, j: int) -> Option<int> {
    if j >= 0 && j < s.len() && s[j] == '=' {
        let d = digit_run_end(s, j + 1);
        if d > j + 1 && d < s.len() && (s[d] == 'h' || s[d] == 'I') {
            Some(d + 1)
        } else {
            None
        }
    } else {
        None
    }
}

/// End of the escape sequence starting exactly at `i`, or `None` when no
/// recognized sequence starts there.  The five alternatives are tried in
/// order and the first that fits decides the length.
pub open spec fn match_end_at(s: Seq<char>, i: int) -> Option<int> {
    if 0 <= i && i + 2 <= s.len() && s[i] == ESC && s[i + 1] == '[' {
        let j = i + 2;
        if alt_cursor_pos_end(s, j) is Some {
            alt_cursor_pos_end(s, j)
        } else if alt_cursor_move_end(s, j) is Some {
            alt_cursor_move_end(s, j)
        } else if alt_control_end(s, j) is Some {
            alt_control_end(s, j)
        } else if alt_sgr_end(s, j) is Some {
            alt_sgr_end(s, j)
        } else {
            alt_mode_end(s, j)
        }
    } else {
        None
    }
}

/// Start of the leftmost recognized sequence at or after `i`, or the end
/// of the text when none follows.
pub open spec fn next_match_pos(s: Seq<char>, i: int) -> int
    decreases s.len() - i,
{
    if i < 0 || i >= s.len() {
        s.len() as int
    } else if match_end_at(s, i) is Some {
        i
    } else {
        next_match_pos(s, i + 1)
    }
}

/// No recognized sequence starts anywhere in `s`.
pub open spec fn has_no_match(s: Seq<char>) -> bool {
    forall|i: int| 0 <= i < s.len() ==> match_end_at(s, i) is None
}

/// The clear-line sequence.
pub open spec fn clear_line_code() -> Seq<char> {
    seq![ESC, '[', 'K']
}

/// The clear-screen sequence.
pub open spec fn clear_screen_code() -> Seq<char> {
    seq![ESC, '[', '2', 'J']
}

/// A sequence that clears the line or the screen; the scanner turns it
/// into no attribute change at all.
pub open spec fn is_clear_code(code: Seq<char>) -> bool {
    code == clear_line_code() || code == clear_screen_code()
}

pub proof fn lemma_digit_run_end(s: Seq<char>, j: int)
    requires
        0 <= j <= s.len(),
    ensures
        j <= digit_run_end(s, j) <= s.len(),
        forall|k: int| j <= k < digit_run_end(s, j) ==> is_digit(s[k]),
        digit_run_end(s, j) < s.len() ==> !is_digit(s[digit_run_end(s, j)]),
    decreases s.len() - j,
{
    if j < s.len() && is_digit(s[j]) {
        lemma_digit_run_end(s, j + 1);
    }
}

pub proof fn lemma_param_run_end(s: Seq<char>, j: int)
    requires
        0 <= j <= s.len(),
    ensures
        j <= param_run_end(s, j) <= s.len(),
        forall|k: int| j <= k < param_run_end(s, j) ==> is_param_char(s[k]),
        param_run_end(s, j) < s.len() ==> !is_param_char(s[param_run_end(s, j)]),
    decreases s.len() - j,
{
    if j < s.len() && is_param_char(s[j]) {
        lemma_param_run_end(s, j + 1);
    }
}

/// A match starting at `i` covers at least the introducer and one more
/// character, and never runs past the end of the text.
pub proof fn lemma_match_end_bounds(s: Seq<char>, i: int)
    requires
        match_end_at(s, i) is Some,
    ensures
        i + 3 <= match_end_at(s, i)->0 <= s.len(),
{
    lemma_digit_run_end(s, i + 2);
    let d1 = digit_run_end(s, i + 2);
    if d1 > i + 2 && d1 < s.len() && s[d1] == ';' {
        lemma_digit_run_end(s, d1 + 1);
    }
    lemma_param_run_end(s, i + 2);
    if i + 2 < s.len() && s[i + 2] == '=' {
        lemma_digit_run_end(s, i + 3);
    }
}

/// Between a position and the next match start there is no match.
pub proof fn lemma_next_match_pos(s: Seq<char>, i: int)
    requires
        0 <= i <= s.len(),
    ensures
        i <= next_match_pos(s, i) <= s.len(),
        forall|k: int| i <= k < next_match_pos(s, i) ==> match_end_at(s, k) is None,
        next_match_pos(s, i) < s.len() ==> match_end_at(s, next_match_pos(s, i)) is Some,
    decreases s.len() - i,
{
    if i < s.len() && match_end_at(s, i) is None {
        lemma_next_match_pos(s, i + 1);
    }
}

/// In text without any match the leftmost match start is the end.
pub proof fn lemma_no_match_next_pos(s: Seq<char>, i: int)
    requires
        0 <= i <= s.len(),
        has_no_match(s),
    ensures
        next_match_pos(s, i) == s.len(),
    decreases s.len() - i,
{
    if i < s.len() {
        lemma_no_match_next_pos(s, i + 1);
    }
}

fn digit_run_end_exec(text: &str, n: usize, j: usize) -> (r: usize)
    requires
        n == text@.len(),
        j <= n,
    ensures
        r == digit_run_end(text@, j as int),
        j <= r <= n,
{
    proof {
        lemma_digit_run_end(text@, j as int);
    }
    let mut k: usize = j;
    loop
        invariant
            n == text@.len(),
            j <= k <= n,
            digit_run_end(text@, j as int) == digit_run_end(text@, k as int),
        decreases n - k,
    {
        if k >= n {
            return k;
        }
        let c = text.get_char(k);
        if c < '0' || c > '9' {
            return k;
        }
        k = k + 1;
    }
}

fn param_run_end_exec(text: &str, n: usize, j: usize) -> (r: usize)
    requires
        n == text@.len(),
        j <= n,
    ensures
        r == param_run_end(text@, j as int),
        j <= r <= n,
{
    proof {
        lemma_param_run_end(text@, j as int);
    }
    let mut k: usize = j;
    loop
        invariant
            n == text@.len(),
            j <= k <= n,
            param_run_end(text@, j as int) == param_run_end(text@, k as int),
        decreases n - k,
    {
        if k >= n {
            return k;
        }
        let c = text.get_char(k);
        if (c < '0' || c > '9') && c != ';' {
            return k;
        }
        k = k + 1;
    }
}

/// Decide whether a recognized escape sequence starts exactly at `i`, and
/// where it ends.
pub fn match_end_exec(text: &str, n: usize, i: usize) -> (r: Option<usize>)
    requires
        n == text@.len(),
        i <= n,
    ensures
        (r is Some) == (match_end_at(text@, i as int) is Some),
        r is Some ==> match_end_at(text@, i as int) == Some(r->0 as int) && i < r->0 <= n,
{
    proof {
        if match_end_at(text@, i as int) is Some {
            lemma_match_end_bounds(text@, i as int);
        }
    }
    if n - i < 2 {
        return None;
    }
    let c0 = text.get_char(i);
    let c1 = text.get_char(i + 1);
    if c0 != ESC || c1 != '[' {
        return None;
    }
    let j = i + 2;
    let d1 = digit_run_end_exec(text, n, j);
    if d1 > j && d1 < n {
        let cd1 = text.get_char(d1);
        if cd1 == ';' {
            let d2 = digit_run_end_exec(text, n, d1 + 1);
            if d2 > d1 + 1 && d2 < n {
                let cd2 = text.get_char(d2);
                if cd2 == 'H' || cd2 == 'f' {
                    return Some(d2 + 1);
                }
            }
        }
    }
    if d1 > j && d1 < n {
        let cd = text.get_char(d1);
        if cd == 'A' || cd == 'B' || cd == 'C' || cd == 'D' {
            return Some(d1 + 1);
        }
    }
    if j < n {
        let cj = text.get_char(j);
        if cj == 's' || cj == 'u' || cj == 'K' {
            return Some(j + 1);
        }
        if cj == '2' && j + 1 < n {
            let cj1 = text.get_char(j + 1);
            if cj1 == 'J' {
                return Some(j + 2);
            }
        }
    }
    let p = param_run_end_exec(text, n, j);
    if p < n {
        let cp = text.get_char(p);
        if cp == 'm' {
            return Some(p + 1);
        }
    }
    if j < n {
        let cj = text.get_char(j);
        if cj == '=' {
            let d = digit_run_end_exec(text, n, j + 1);
            if d > j + 1 && d < n {
                let cd = text.get_char(d);
                if cd == 'h' || cd == 'I' {
                    return Some(d + 1);
                }
            }
        }
    }
    None
}

/// Find the start of the leftmost recognized sequence at or after `from`.
pub fn find_next_match(text: &str, n: usize, from: usize) -> (r: usize)
    requires
        n == text@.len(),
        from <= n,
    ensures
        r == next_match_pos(text@, from as int),
        from <= r <= n,
        r < n ==> match_end_at(text@, r as int) is Some,
{
    proof {
        lemma_next_match_pos(text@, from as int);
    }
    let mut k: usize = from;
    loop
        invariant
            n == text@.len(),
            from <= k <= n,
            next_match_pos(text@, from as int) == next_match_pos(text@, k as int),
        decreases n - k,
    {
        if k >= n {
            return k;
        }
        match match_end_exec(text, n, k) {
            Some(_) => {
                return k;
            },
            None => {},
        }
        k = k + 1;
    }
}

} // verus!
