//! The stateful line scanner.
//!
//! [`ANSIParser::parse_ansi`] consumes one line at a time.  It strips
//! every recognized escape sequence, resolves each attribute sequence to
//! a token through the registry, and records at which character offset of
//! the stripped text the token becomes active.  One piece of state
//! survives between lines: the most recently seen token.  A line whose
//! text does not open with an escape sequence inherits that token at
//! offset zero, so that an attribute left active on one line carries onto
//! the next.  A clear-line or clear-screen sequence emits no change and
//! drops the carried token.

use vstd::prelude::*;
use crate::grammar::is_clear_code;
use crate::grammar::match_end_at;
use crate::grammar::match_end_exec;
use crate::grammar::next_match_pos;
use crate::grammar::find_next_match;
use crate::grammar::lemma_next_match_pos;
use crate::grammar::lemma_match_end_bounds;
use crate::registry::AttrRegistry;
use crate::registry::AttrToken;
use crate::registry::register_model;
use crate::registry::token_for;
use crate::registry::str_eq;
use crate::styled::AnsiString;
use crate::styled::states_view;

verus! {

/// What scanning a stretch of text yields: the stripped characters, the
/// attribute changes with their offsets, the registry contents afterward
/// and the token left active afterward.
pub ghost struct ScanResult {
    pub stripped: Seq<char>,
    pub changes: Seq<(int, AttrToken)>,
    pub codes: Seq<Seq<char>>,
    pub last: Option<AttrToken>,
}

/// Scan `s` from position `pos` on, with `nchars` stripped characters
/// already emitted, the registry holding `codes`, and `last` the token
/// active so far.  Literal stretches go to the stripped text; each
/// recognized sequence either clears (no change, token dropped) or
/// resolves to a token recorded at the current stripped offset.
pub open spec fn scan_from(
    s: Seq<char>,
    pos: int,
    nchars: int,
    codes: Seq<Seq<char>>,
    last: Option<AttrToken>,
) -> ScanResult
    decreases s.len() - pos
        when 0 <= pos <= s.len()
        via scan_from_decreases
{
    let j = next_match_pos(s, pos);
    let lit = s.subrange(pos, j);
    if j >= s.len() {
        ScanResult { stripped: lit, changes: Seq::empty(), codes, last }
    } else {
        let end = match_end_at(s, j)->0;
        let code = s.subrange(j, end);
        let n2 = nchars + (j - pos);
        if is_clear_code(code) {
            let rest = scan_from(s, end, n2, codes, None);
            ScanResult {
                stripped: lit + rest.stripped,
                changes: rest.changes,
                codes: rest.codes,
                last: rest.last,
            }
        } else {
            let tok = token_for(codes, code);
            let rest = scan_from(s, end, n2, register_model(codes, code), Some(tok));
            ScanResult {
                stripped: lit + rest.stripped,
                changes: seq![(n2, tok)] + rest.changes,
                codes: rest.codes,
                last: rest.last,
            }
        }
    }
}

#[via_fn]
proof fn scan_from_decreases(
    s: Seq<char>,
    pos: int,
    nchars: int,
    codes: Seq<Seq<char>>,
    last: Option<AttrToken>,
) {
    lemma_next_match_pos(s, pos);
    let j = next_match_pos(s, pos);
    if j < s.len() {
        lemma_match_end_bounds(s, j);
    }
}

/// How many attribute changes the sequences of `s` at or after `pos`
/// contribute: one for each recognized sequence that is not a clear.
pub open spec fn attr_match_count(s: Seq<char>, pos: int) -> int
    decreases s.len() - pos
        when 0 <= pos <= s.len()
        via attr_match_count_decreases
{
    let j = next_match_pos(s, pos);
    if j >= s.len() {
        0
    } else {
        let end = match_end_at(s, j)->0;
        (if is_clear_code(s.subrange(j, end)) {
            0int
        } else {
            1int
        }) + attr_match_count(s, end)
    }
}

#[via_fn]
proof fn attr_match_count_decreases(s: Seq<char>, pos: int) {
    lemma_next_match_pos(s, pos);
    let j = next_match_pos(s, pos);
    if j < s.len() {
        lemma_match_end_bounds(s, j);
    }
}

/// Scan one whole line: the plain scan, preceded by the carried token at
/// offset zero when the line does not open with an escape sequence and a
/// token is still active.
pub open spec fn scan_line(
    s: Seq<char>,
    codes: Seq<Seq<char>>,
    last: Option<AttrToken>,
) -> ScanResult {
    let base = scan_from(s, 0, 0, codes, last);
    if last is Some && match_end_at(s, 0) is None {
        ScanResult {
            stripped: base.stripped,
            changes: seq![(0int, last->0)] + base.changes,
            codes: base.codes,
            last: base.last,
        }
    } else {
        base
    }
}

/// The scanner: the token registry and the token carried over from the
/// lines scanned so far.
pub struct ANSIParser {
    pub registry: AttrRegistry,
    pub last_attr: Option<AttrToken>,
}

impl ANSIParser {
    /// The registered codes, oldest first.
    pub open spec fn codes(&self) -> Seq<Seq<char>> {
        self.registry.codes_view()
    }

    pub open spec fn wf(&self) -> bool {
        self.registry.wf()
    }

    /// Classify one matched sequence: a clear sequence yields no token,
    /// any other resolves through the registry.
    fn interpret_code(&mut self, code: &str) -> (r: Option<AttrToken>)
        requires
            old(self).wf(),
        ensures
            final(self).wf(),
            final(self).last_attr == old(self).last_attr,
            is_clear_code(code@) ==> r is None && final(self).codes() == old(self).codes(),
            !is_clear_code(code@) ==> r == Some(token_for(old(self).codes(), code@))
                && final(self).codes() == register_model(old(self).codes(), code@),
    {
        proof {
            reveal_strlit("\x1b[K");
            reveal_strlit("\x1b[2J");
            assert(("\x1b[K")@ =~= crate::grammar::clear_line_code());
            assert(("\x1b[2J")@ =~= crate::grammar::clear_screen_code());
        }
        if str_eq(code, "\x1b[K") || str_eq(code, "\x1b[2J") {
            None
        } else {
            let t = self.registry.register(code);
            Some(t)
        }
    }

    /// Scan one line: strip recognized sequences, record each attribute
    /// token at the character offset where it takes effect, and carry the
    /// last token on to the next line.
    pub fn parse_ansi(&mut self, text: &str) -> (r: AnsiString)
        requires
            old(self).wf(),
        ensures
            final(self).wf(),
            ({
                let m = scan_line(text@, old(self).codes(), old(self).last_attr);
                &&& final(self).codes() == m.codes
                &&& final(self).last_attr == m.last
                &&& r.stripped@ == m.stripped
                &&& r.changes() == m.changes
            }),
            r.wf(),
    {
        proof {
            crate::laws::lemma_scan_line_wf(text@, old(self).codes(), old(self).last_attr);
        }
        let n = text.unicode_len();
        let ghost codes0 = self.codes();
        let ghost last0 = self.last_attr;

        let mut stripped = String::new();
        let mut states: Vec<(usize, AttrToken)> = Vec::new();

        let opens_with_escape = match match_end_exec(text, n, 0) {
            Some(_) => true,
            None => false,
        };
        if !opens_with_escape {
            if let Some(a) = self.last_attr {
                states.push((0, a));
            }
        }
        proof {
            let m = scan_line(text@, codes0, last0);
            let rest = scan_from(text@, 0, 0, codes0, last0);
            assert(m.stripped =~= stripped@ + rest.stripped);
            assert(m.changes =~= states_view(states@) + rest.changes);
        }

        let mut pos: usize = 0;
        let mut nchars: usize = 0;
        loop
            invariant_except_break
                nchars <= pos,
                ({
                    let m = scan_line(text@, codes0, last0);
                    let rest = scan_from(
                        text@,
                        pos as int,
                        nchars as int,
                        self.codes(),
                        self.last_attr,
                    );
                    &&& m.stripped == stripped@ + rest.stripped
                    &&& m.changes == states_view(states@) + rest.changes
                    &&& m.codes == rest.codes
                    &&& m.last == rest.last
                }),
            invariant
                self.wf(),
                n == text@.len(),
                pos <= n,
                nchars == stripped@.len(),
            ensures
                self.wf(),
                ({
                    let m = scan_line(text@, codes0, last0);
                    &&& m.stripped == stripped@
                    &&& m.changes == states_view(states@)
                    &&& m.codes == self.codes()
                    &&& m.last == self.last_attr
                }),
            decreases n - pos,
        {
            let ghost self_in = *self;
            let ghost pos0 = pos as int;
            let ghost nch0 = nchars as int;
            let ghost states0 = states@;
            let j = find_next_match(text, n, pos);
            let lit = text.substring_char(pos, j);
            stripped.append(lit);
            nchars = nchars + (j - pos);
            if j >= n {
                proof {
                    let rest = scan_from(text@, pos0, nch0, self.codes(), self.last_attr);
                    assert(rest.stripped == text@.subrange(pos0, j as int));
                    assert(rest.changes == Seq::<(int, AttrToken)>::empty());
                    let m = scan_line(text@, codes0, last0);
                    assert(m.changes =~= states_view(states@));
                }
                break ;
            }
            let e = match match_end_exec(text, n, j) {
                Some(e) => e,
                None => {
                    proof {
                        assert(false);
                    }
                    j
                },
            };
            let code = text.substring_char(j, e);
            let t = self.interpret_code(code);
            if let Some(tok) = t {
                states.push((nchars, tok));
            }
            self.last_attr = t;
            pos = e;
            proof {
                let m = scan_line(text@, codes0, last0);
                let rest0 = scan_from(text@, pos0, nch0, self_in.codes(), self_in.last_attr);
                let rest1 = scan_from(
                    text@,
                    pos as int,
                    nchars as int,
                    self.codes(),
                    self.last_attr,
                );
                assert(next_match_pos(text@, pos0) == j as int);
                assert(code@ == text@.subrange(j as int, e as int));
                if is_clear_code(code@) {
                    assert(rest0.stripped == text@.subrange(pos0, j as int) + rest1.stripped);
                    assert(rest0.changes == rest1.changes);
                    assert(states@ == states0);
                } else {
                    let tok = token_for(self_in.codes(), code@);
                    assert(rest0.stripped == text@.subrange(pos0, j as int) + rest1.stripped);
                    assert(rest0.changes == seq![(nchars as int, tok)] + rest1.changes);
                    assert(states@ == states0.push((nchars, tok)));
                    assert(states_view(states@) =~= states_view(states0).push(
                        (nchars as int, tok),
                    ));
                }
                assert(m.stripped =~= stripped@ + rest1.stripped);
                assert(m.changes =~= states_view(states@) + rest1.changes);
            }
        }
        AnsiString { stripped, ansi_states: states }
    }
}

impl Default for ANSIParser {
    /// A fresh scanner: an empty registry and no carried token.
    fn default() -> (r: ANSIParser)
        ensures
            r.wf(),
            r.codes() == Seq::<Seq<char>>::empty(),
            r.last_attr is None,
    {
        ANSIParser { registry: AttrRegistry::new(), last_attr: None }
    }
}

} // verus!
