//! The immutable result of scanning one line.
//!
//! An [`AnsiString`] holds the stripped text of a line together with the
//! ordered list of attribute changes found while scanning it: pairs of a
//! character offset into the stripped text and the attribute token that
//! becomes active there.  Several changes may share one offset; offsets
//! never decrease along the list and never point past the end of the
//! stripped text.

use vstd::prelude::*;
use vstd::slice::slice_index_get;
use vstd::slice::slice_subrange;
use crate::registry::AttrToken;

verus! {

/// An attribute-change list as mathematical pairs of character offset
/// and token.
pub open spec fn states_view(v: Seq<(usize, AttrToken)>) -> Seq<(int, AttrToken)> {
    v.map_values(|p: (usize, AttrToken)| (p.0 as int, p.1))
}

/// Offsets never decrease along the list.
pub open spec fn offsets_sorted(changes: Seq<(int, AttrToken)>) -> bool {
    forall|i: int, j: int| 0 <= i <= j < changes.len() ==> changes[i].0 <= changes[j].0
}

/// Every offset lies within the stripped text; the position one past the
/// end is allowed, for a sequence at the very end of a line.
pub open spec fn offsets_bounded(changes: Seq<(int, AttrToken)>, len: int) -> bool {
    forall|i: int| 0 <= i < changes.len() ==> 0 <= #[trigger] changes[i].0 <= len
}

/// One line's stripped text and its ordered attribute changes.
pub struct AnsiString {
    pub stripped: String,
    pub ansi_states: Vec<(usize, AttrToken)>,
}

impl AnsiString {
    /// The attribute-change list as offset and token pairs.
    pub open spec fn changes(&self) -> Seq<(int, AttrToken)> {
        states_view(self.ansi_states@)
    }

    /// Offsets are ordered and stay within the stripped text.
    pub open spec fn wf(&self) -> bool {
        &&& offsets_sorted(self.changes())
        &&& offsets_bounded(self.changes(), self.stripped@.len() as int)
    }

    /// A styled text with no characters and no attribute changes.
    pub fn new_empty() -> (r: AnsiString)
        ensures
            r.stripped@ == Seq::<char>::empty(),
            r.changes() == Seq::<(int, AttrToken)>::empty(),
            r.wf(),
    {
        let r = AnsiString { stripped: String::new(), ansi_states: Vec::new() };
        proof {
            assert(r.changes() =~= Seq::<(int, AttrToken)>::empty());
        }
        r
    }

    /// Give up the attribute changes and keep the bare text.
    pub fn into_inner(self) -> (r: String)
        ensures
            r@ == self.stripped@,
    {
        self.stripped
    }

    /// Whether any attribute change was recorded at all.
    pub fn has_attrs(&self) -> (r: bool)
        ensures
            r == (self.changes().len() != 0),
    {
        !self.ansi_states.is_empty()
    }

    /// Walk the stripped text character by character, merged against the
    /// attribute-change list.
    pub fn iter<'a>(&'a self) -> (it: AnsiStringIterator<'a>)
        ensures
            it.stripped@ == self.stripped@,
            it.ansi_states@ == self.ansi_states@,
            it.char_pos == 0,
            it.state_pos == 0,
            it.wf(),
    {
        AnsiStringIterator {
            stripped: self.stripped.as_str(),
            ansi_states: self.ansi_states.as_slice(),
            char_pos: 0,
            state_pos: 0,
        }
    }

    /// The rendering plan of this text: for each character of the
    /// stripped text, the tokens landing at its offset, in list order,
    /// paired with the character.  A sink applies the tokens first and
    /// then writes the character, so every attribute change precedes the
    /// character it styles.
    pub fn print(&self) -> (ops: Vec<(Vec<AttrToken>, char)>)
        ensures
            plan_view(ops@) == render_from(self.stripped@, self.ansi_states@, 0, 0),
    {
        let mut ops: Vec<(Vec<AttrToken>, char)> = Vec::new();
        let mut it = self.iter();
        proof {
            assert(plan_view(ops@) + render_from(self.stripped@, self.ansi_states@, 0, 0)
                =~= render_from(self.stripped@, self.ansi_states@, 0, 0));
        }
        loop
            invariant
                it.stripped@ == self.stripped@,
                it.ansi_states@ == self.ansi_states@,
                it.wf(),
                it.char_pos <= self.stripped@.len(),
                render_from(self.stripped@, self.ansi_states@, 0, 0) == plan_view(ops@)
                    + render_from(
                    self.stripped@,
                    self.ansi_states@,
                    it.state_pos as int,
                    it.char_pos as int,
                ),
            ensures
                plan_view(ops@) == render_from(self.stripped@, self.ansi_states@, 0, 0),
            decreases self.stripped@.len() - it.char_pos,
        {
            let ghost it0 = it;
            let ghost ops0 = ops@;
            match it.next() {
                None => {
                    proof {
                        crate::laws::lemma_render_done(
                            self.stripped@,
                            self.ansi_states@,
                            it.state_pos as int,
                            it.char_pos as int,
                        );
                        assert(plan_view(ops@) =~= plan_view(ops@) + render_from(
                            self.stripped@,
                            self.ansi_states@,
                            it.state_pos as int,
                            it.char_pos as int,
                        ));
                    }
                    break ;
                },
                Some((c, run)) => {
                    let ghost sv = self.stripped@;
                    let ghost st = self.ansi_states@;
                    let ghost cp = it0.char_pos as int;
                    let ghost sp = it0.state_pos as int;
                    let ghost av = run_start(st, sp, cp);
                    let ghost bv = run_end(st, av, cp);
                    proof {
                        lemma_run_bounds(st, sp, cp);
                    }
                    let mut tokens: Vec<AttrToken> = Vec::new();
                    let mut k: usize = 0;
                    let m = run.len();
                    loop
                        invariant
                            k <= m,
                            m == run@.len(),
                            tokens@ == tokens_of(run@.subrange(0, k as int)),
                            run@ == st.subrange(av, bv),
                        ensures
                            tokens@ == tokens_of(run@.subrange(0, m as int)),
                            run@ == st.subrange(av, bv),
                        decreases m - k,
                    {
                        if k >= m {
                            break ;
                        }
                        let p = *slice_index_get(run, k);
                        tokens.push(p.1);
                        proof {
                            assert(tokens_of(run@.subrange(0, k + 1)) =~= tokens_of(
                                run@.subrange(0, k as int),
                            ).push(run@[k as int].1));
                        }
                        k = k + 1;
                    }
                    ops.push((tokens, c));
                    proof {
                        assert(run@.subrange(0, m as int) =~= run@);
                        assert(tokens_of(run@) == tokens_of(st.subrange(av, bv)));
                        assert(plan_view(ops@) =~= plan_view(ops0).push(
                            (tokens_of(st.subrange(av, bv)), sv[cp]),
                        ));
                        crate::laws::lemma_print_step(
                            sv,
                            st,
                            sp,
                            cp,
                            render_from(sv, st, 0, 0),
                            plan_view(ops0),
                            plan_view(ops@),
                        );
                        assert(render_from(sv, st, 0, 0) == plan_view(ops@) + render_from(
                            sv,
                            st,
                            it.state_pos as int,
                            it.char_pos as int,
                        ));
                    }
                },
            }
        }
        ops
    }

    /// Scan one line with a fresh scanner: no registered codes and no
    /// carried token.
    pub fn from_str(raw: &str) -> (r: AnsiString)
        ensures
            ({
                let m = crate::scanner::scan_line(
                    raw@,
                    Seq::<Seq<char>>::empty(),
                    None::<AttrToken>,
                );
                &&& r.stripped@ == m.stripped
                &&& r.changes() == m.changes
            }),
            r.wf(),
    {
        let mut parser = crate::scanner::ANSIParser::default();
        parser.parse_ansi(raw)
    }
}

/// First position at or after `from` whose change lands at offset `i` or
/// later; entries before it are stale for character `i` and are passed
/// over without being yielded.
pub open spec fn run_start(states: Seq<(usize, AttrToken)>, from: int, i: int) -> int
    decreases states.len() - from,
{
    if from < 0 || from >= states.len() {
        from
    } else if (states[from].0 as int) < i {
        run_start(states, from + 1, i)
    } else {
        from
    }
}

/// First position at or after `from` whose change lands after offset
/// `i`; between `run_start` and here lie exactly the changes yielded
/// with character `i`.
pub open spec fn run_end(states: Seq<(usize, AttrToken)>, from: int, i: int) -> int
    decreases states.len() - from,
{
    if from < 0 || from >= states.len() {
        from
    } else if (states[from].0 as int) <= i {
        run_end(states, from + 1, i)
    } else {
        from
    }
}

/// The run cursor positions stay within the change list.
pub proof fn lemma_run_range(states: Seq<(usize, AttrToken)>, from: int, i: int)
    requires
        0 <= from <= states.len(),
    ensures
        from <= run_start(states, from, i) <= states.len(),
        run_start(states, from, i) <= run_end(states, run_start(states, from, i), i)
            <= states.len(),
    decreases states.len() - from,
{
    if from < states.len() && (states[from].0 as int) < i {
        lemma_run_range(states, from + 1, i);
    } else {
        lemma_run_end_range(states, from, i);
    }
}

proof fn lemma_run_end_range(states: Seq<(usize, AttrToken)>, from: int, i: int)
    requires
        0 <= from <= states.len(),
    ensures
        from <= run_end(states, from, i) <= states.len(),
    decreases states.len() - from,
{
    if from < states.len() && (states[from].0 as int) <= i {
        lemma_run_end_range(states, from + 1, i);
    }
}

pub proof fn lemma_run_bounds(states: Seq<(usize, AttrToken)>, from: int, i: int)
    requires
        0 <= from <= states.len(),
    ensures
        from <= run_start(states, from, i) <= states.len(),
        run_start(states, from, i) <= run_end(states, run_start(states, from, i), i)
            <= states.len(),
        forall|k: int| run_start(states, from, i) <= k < run_end(
            states,
            run_start(states, from, i),
            i,
        ) ==> (#[trigger] states[k].0 as int) <= i,
    decreases states.len() - from,
{
    if from < states.len() && (states[from].0 as int) < i {
        lemma_run_bounds(states, from + 1, i);
    } else {
        lemma_run_end_bounds(states, from, i);
    }
}

pub proof fn lemma_run_end_bounds(states: Seq<(usize, AttrToken)>, from: int, i: int)
    requires
        0 <= from <= states.len(),
    ensures
        from <= run_end(states, from, i) <= states.len(),
        forall|k: int| from <= k < run_end(states, from, i) ==> (#[trigger] states[k].0 as int)
            <= i,
    decreases states.len() - from,
{
    if from < states.len() && (states[from].0 as int) <= i {
        lemma_run_end_bounds(states, from + 1, i);
    }
}

/// The executable rendering plan as mathematical values.
pub open spec fn plan_view(ops: Seq<(Vec<AttrToken>, char)>) -> Seq<(Seq<AttrToken>, char)> {
    ops.map_values(|e: (Vec<AttrToken>, char)| (e.0@, e.1))
}

/// The tokens of a stretch of the change list, in list order.
pub open spec fn tokens_of(states: Seq<(usize, AttrToken)>) -> Seq<AttrToken> {
    states.map_values(|p: (usize, AttrToken)| p.1)
}

/// The rendering plan from character `i` on, with the changes before
/// `from` already consumed: each character of the stripped text, paired
/// with the tokens landing at its offset.
pub open spec fn render_from(
    stripped: Seq<char>,
    states: Seq<(usize, AttrToken)>,
    from: int,
    i: int,
) -> Seq<(Seq<AttrToken>, char)>
    decreases stripped.len() - i,
{
    if i >= stripped.len() {
        Seq::empty()
    } else {
        let a = run_start(states, from, i);
        let b = run_end(states, a, i);
        seq![(tokens_of(states.subrange(a, b)), stripped[i])] + render_from(
            stripped,
            states,
            b,
            i + 1,
        )
    }
}

/// A walk over one styled text: the next character to yield and the next
/// change entry to look at.
pub struct AnsiStringIterator<'a> {
    pub stripped: &'a str,
    pub ansi_states: &'a [(usize, AttrToken)],
    pub char_pos: usize,
    pub state_pos: usize,
}

impl<'a> AnsiStringIterator<'a> {
    /// The change cursor never points past the end of the list.
    pub open spec fn wf(&self) -> bool {
        self.state_pos <= self.ansi_states@.len()
    }

    /// Yield the next character together with the changes landing at its
    /// offset.  Changes whose offset already lies behind the walk are
    /// passed over without being yielded; on a well-formed styled text
    /// there are none.
    pub fn next(&mut self) -> (r: Option<(char, &'a [(usize, AttrToken)])>)
        requires
            old(self).wf(),
        ensures
            final(self).wf(),
            final(self).stripped == old(self).stripped,
            final(self).ansi_states == old(self).ansi_states,
            old(self).char_pos >= old(self).stripped@.len() ==> r is None && *final(self)
                == *old(self),
            old(self).char_pos < old(self).stripped@.len() ==> ({
                let cp = old(self).char_pos as int;
                let a = run_start(old(self).ansi_states@, old(self).state_pos as int, cp);
                let b = run_end(old(self).ansi_states@, a, cp);
                &&& r is Some
                &&& ({
                    let yielded = r->0;
                    yielded.0 == old(self).stripped@[cp] && yielded.1@
                        == old(self).ansi_states@.subrange(a, b)
                })
                &&& final(self).char_pos == cp + 1
                &&& final(self).state_pos == b
            }),
    {
        let n = self.stripped.unicode_len();
        if self.char_pos >= n {
            return None;
        }
        let ch = self.stripped.get_char(self.char_pos);
        let len = self.ansi_states.len();
        let ghost st = self.ansi_states@;
        let ghost cp = self.char_pos as int;
        let ghost sp0 = self.state_pos as int;
        let mut k: usize = self.state_pos;
        loop
            invariant
                k <= len,
                len == st.len(),
                st == self.ansi_states@,
                cp == self.char_pos as int,
                run_start(st, sp0, cp) == run_start(st, k as int, cp),
                sp0 <= k,
            ensures
                k as int == run_start(st, sp0, cp),
                k <= len,
            decreases len - k,
        {
            if k >= len {
                break ;
            }
            let p = *slice_index_get(self.ansi_states, k);
            if p.0 >= self.char_pos {
                break ;
            }
            k = k + 1;
        }
        let a = k;
        loop
            invariant
                a <= k <= len,
                len == st.len(),
                st == self.ansi_states@,
                cp == self.char_pos as int,
                run_end(st, a as int, cp) == run_end(st, k as int, cp),
            ensures
                k as int == run_end(st, a as int, cp),
                k <= len,
            decreases len - k,
        {
            if k >= len {
                break ;
            }
            let p = *slice_index_get(self.ansi_states, k);
            if p.0 > self.char_pos {
                break ;
            }
            k = k + 1;
        }
        let run = slice_subrange(self.ansi_states, a, k);
        self.state_pos = k;
        self.char_pos = self.char_pos + 1;
        Some((ch, run))
    }
}

} // verus!
