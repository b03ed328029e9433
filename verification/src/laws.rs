//! Proved laws of the scanner, the styled text and the rendering walk.

use vstd::prelude::*;
use crate::grammar::has_no_match;
use crate::grammar::lemma_match_end_bounds;
use crate::grammar::lemma_next_match_pos;
use crate::grammar::lemma_no_match_next_pos;
use crate::grammar::match_end_at;
use crate::grammar::next_match_pos;
use crate::registry::AttrToken;
use crate::scanner::attr_match_count;
use crate::scanner::scan_from;
use crate::scanner::scan_line;
use crate::scanner::ScanResult;
use crate::styled::AnsiString;
use crate::styled::offsets_bounded;
use crate::styled::offsets_sorted;
use crate::styled::render_from;
use crate::styled::run_start;
use crate::styled::run_end;
use crate::styled::tokens_of;

verus! {

/// Past the last character the rendering plan is empty.
pub proof fn lemma_render_done(sv: Seq<char>, st: Seq<(usize, AttrToken)>, sp: int, cp: int)
    requires
        cp >= sv.len(),
    ensures
        render_from(sv, st, sp, cp) == Seq::<(Seq<AttrToken>, char)>::empty(),
{
}

/// Unfolding one character of the rendering plan: the tokens of the
/// changes landing at this character, paired with the character, then the
/// rest of the plan.
pub proof fn lemma_render_unfold(sv: Seq<char>, st: Seq<(usize, AttrToken)>, sp: int, cp: int)
    requires
        0 <= cp < sv.len(),
        0 <= sp <= st.len(),
    ensures
        render_from(sv, st, sp, cp) == seq![
            (
                tokens_of(
                    st.subrange(run_start(st, sp, cp), run_end(st, run_start(st, sp, cp), cp)),
                ),
                sv[cp],
            ),
        ] + render_from(sv, st, run_end(st, run_start(st, sp, cp), cp), cp + 1),
{
    crate::styled::lemma_run_range(st, sp, cp);
    let av = run_start(st, sp, cp);
    let bv = run_end(st, av, cp);
    let tail = render_from(sv, st, bv, cp + 1);
    assert(render_from(sv, st, sp, cp) =~= seq![(tokens_of(st.subrange(av, bv)), sv[cp])]
        + tail);
}

/// One merge-walk step extends the rendering plan built so far by the
/// current character together with the tokens of its run.
pub proof fn lemma_print_step(
    sv: Seq<char>,
    st: Seq<(usize, AttrToken)>,
    sp: int,
    cp: int,
    all: Seq<(Seq<AttrToken>, char)>,
    ops0: Seq<(Seq<AttrToken>, char)>,
    opsnew: Seq<(Seq<AttrToken>, char)>,
)
    requires
        0 <= cp < sv.len(),
        0 <= sp <= st.len(),
        all == ops0 + render_from(sv, st, sp, cp),
        opsnew == ops0.push(
            (
                tokens_of(
                    st.subrange(run_start(st, sp, cp), run_end(st, run_start(st, sp, cp), cp)),
                ),
                sv[cp],
            ),
        ),
    ensures
        all == opsnew + render_from(sv, st, run_end(st, run_start(st, sp, cp), cp), cp + 1),
{
    let av = run_start(st, sp, cp);
    let bv = run_end(st, av, cp);
    let tail = render_from(sv, st, bv, cp + 1);
    let head = (tokens_of(st.subrange(av, bv)), sv[cp]);
    lemma_render_unfold(sv, st, sp, cp);
    assert(opsnew + tail =~= ops0 + (seq![head] + tail));
}


/// The changes a scan emits are ordered by offset, their offsets lie
/// between the count of characters already emitted and that count plus
/// the stripped text's length, and the stripped text never outgrows the
/// scanned stretch.
pub proof fn lemma_scan_from_shape(
    s: Seq<char>,
    pos: int,
    nchars: int,
    codes: Seq<Seq<char>>,
    last: Option<AttrToken>,
)
    requires
        0 <= pos <= s.len(),
    ensures
        ({
            let r = scan_from(s, pos, nchars, codes, last);
            &&& r.stripped.len() <= s.len() - pos
            &&& offsets_sorted(r.changes)
            &&& forall|k: int|
                0 <= k < r.changes.len() ==> nchars <= (#[trigger] r.changes[k]).0 <= nchars
                    + r.stripped.len()
        }),
    decreases s.len() - pos,
{
    lemma_next_match_pos(s, pos);
    let j = next_match_pos(s, pos);
    if j < s.len() {
        lemma_match_end_bounds(s, j);
        let end = match_end_at(s, j)->0;
        let n2 = nchars + (j - pos);
        let code = s.subrange(j, end);
        if crate::grammar::is_clear_code(code) {
            lemma_scan_from_shape(s, end, n2, codes, None);
        } else {
            let tok = crate::registry::token_for(codes, code);
            lemma_scan_from_shape(
                s,
                end,
                n2,
                crate::registry::register_model(codes, code),
                Some(tok),
            );
        }
    }
}

/// Scanning one line yields ordered changes whose offsets stay within
/// the stripped text, which itself is no longer than the line.
pub proof fn lemma_scan_line_wf(s: Seq<char>, codes: Seq<Seq<char>>, last: Option<AttrToken>)
    ensures
        ({
            let m = scan_line(s, codes, last);
            &&& m.stripped.len() <= s.len()
            &&& offsets_sorted(m.changes)
            &&& offsets_bounded(m.changes, m.stripped.len() as int)
        }),
{
    lemma_scan_from_shape(s, 0, 0, codes, last);
}

/// Scanning emits exactly one change per recognized sequence that is
/// not a clear; clear sequences emit none.
proof fn lemma_scan_from_count(
    s: Seq<char>,
    pos: int,
    nchars: int,
    codes: Seq<Seq<char>>,
    last: Option<AttrToken>,
)
    requires
        0 <= pos <= s.len(),
    ensures
        scan_from(s, pos, nchars, codes, last).changes.len() == attr_match_count(s, pos),
    decreases s.len() - pos,
{
    lemma_next_match_pos(s, pos);
    let j = next_match_pos(s, pos);
    if j < s.len() {
        lemma_match_end_bounds(s, j);
        let end = match_end_at(s, j)->0;
        let n2 = nchars + (j - pos);
        let code = s.subrange(j, end);
        if crate::grammar::is_clear_code(code) {
            lemma_scan_from_count(s, end, n2, codes, None);
        } else {
            let tok = crate::registry::token_for(codes, code);
            lemma_scan_from_count(
                s,
                end,
                n2,
                crate::registry::register_model(codes, code),
                Some(tok),
            );
        }
    }
}

/// Clear sequences emit nothing: a scanned line has exactly one change
/// per non-clear sequence, plus the carried token at the front when the
/// line opens with plain text while a token is active.
pub proof fn lemma_change_count(s: Seq<char>, codes: Seq<Seq<char>>, last: Option<AttrToken>)
    ensures
        scan_line(s, codes, last).changes.len() == attr_match_count(s, 0) + (
        if last is Some && match_end_at(s, 0) is None {
            1int
        } else {
            0int
        }),
{
    lemma_scan_from_count(s, 0, 0, codes, last);
}

/// A sequence contains another as a subsequence: every character of the
/// first appears in the second, in the same relative order.
pub open spec fn subseq_of(a: Seq<char>, b: Seq<char>) -> bool
    decreases a.len() + b.len(),
{
    if a.len() == 0 {
        true
    } else if b.len() == 0 {
        false
    } else {
        (a[0] == b[0] && subseq_of(a.skip(1), b.skip(1))) || subseq_of(a, b.skip(1))
    }
}

pub proof fn lemma_subseq_refl(a: Seq<char>)
    ensures
        subseq_of(a, a),
    decreases a.len(),
{
    if a.len() > 0 {
        lemma_subseq_refl(a.skip(1));
    }
}

/// A subsequence of a suffix is a subsequence of the whole.
pub proof fn lemma_subseq_extend_left(x: Seq<char>, c: Seq<char>, b: Seq<char>)
    requires
        subseq_of(x, b),
    ensures
        subseq_of(x, c + b),
    decreases c.len(),
{
    if c.len() == 0 {
        assert(c + b =~= b);
    } else {
        lemma_subseq_extend_left(x, c.skip(1), b);
        assert((c + b).skip(1) =~= c.skip(1) + b);
        if x.len() > 0 {
            assert((c + b)[0] == c[0]);
            assert(subseq_of(x, (c + b).skip(1)));
        }
    }
}

/// Prepending the same characters to both sides keeps a subsequence.
pub proof fn lemma_subseq_prepend(p: Seq<char>, x: Seq<char>, y: Seq<char>)
    requires
        subseq_of(x, y),
    ensures
        subseq_of(p + x, p + y),
    decreases p.len(),
{
    if p.len() == 0 {
        assert(p + x =~= x);
        assert(p + y =~= y);
    } else {
        lemma_subseq_prepend(p.skip(1), x, y);
        assert((p + x).skip(1) =~= p.skip(1) + x);
        assert((p + y).skip(1) =~= p.skip(1) + y);
        if (p + x).len() > 0 {
            assert((p + x)[0] == (p + y)[0]);
        }
    }
}

/// The stripped text a scan emits consists of the line's characters
/// outside escape sequences, in their original order.
pub proof fn lemma_scan_from_order(
    s: Seq<char>,
    pos: int,
    nchars: int,
    codes: Seq<Seq<char>>,
    last: Option<AttrToken>,
)
    requires
        0 <= pos <= s.len(),
    ensures
        subseq_of(scan_from(s, pos, nchars, codes, last).stripped, s.subrange(pos, s.len() as int)),
    decreases s.len() - pos,
{
    lemma_next_match_pos(s, pos);
    let j = next_match_pos(s, pos);
    let lit = s.subrange(pos, j);
    if j >= s.len() {
        lemma_subseq_refl(lit);
    } else {
        lemma_match_end_bounds(s, j);
        let end = match_end_at(s, j)->0;
        let n2 = nchars + (j - pos);
        let code = s.subrange(j, end);
        let rest = if crate::grammar::is_clear_code(code) {
            scan_from(s, end, n2, codes, None)
        } else {
            scan_from(
                s,
                end,
                n2,
                crate::registry::register_model(codes, code),
                Some(crate::registry::token_for(codes, code)),
            )
        };
        if crate::grammar::is_clear_code(code) {
            lemma_scan_from_order(s, end, n2, codes, None);
        } else {
            lemma_scan_from_order(
                s,
                end,
                n2,
                crate::registry::register_model(codes, code),
                Some(crate::registry::token_for(codes, code)),
            );
        }
        lemma_subseq_extend_left(rest.stripped, s.subrange(j, end), s.subrange(end, s.len() as int));
        assert(s.subrange(j, end) + s.subrange(end, s.len() as int) =~= s.subrange(
            j,
            s.len() as int,
        ));
        lemma_subseq_prepend(lit, rest.stripped, s.subrange(j, s.len() as int));
        assert(lit + s.subrange(j, s.len() as int) =~= s.subrange(pos, s.len() as int));
    }
}

/// Round trip of one line: the stripped text is at most as long as the
/// line, and its characters keep the order they had in the line.
pub proof fn lemma_round_trip(s: Seq<char>, codes: Seq<Seq<char>>, last: Option<AttrToken>)
    ensures
        scan_line(s, codes, last).stripped.len() <= s.len(),
        subseq_of(scan_line(s, codes, last).stripped, s),
{
    lemma_scan_from_shape(s, 0, 0, codes, last);
    lemma_scan_from_order(s, 0, 0, codes, last);
    assert(s.subrange(0, s.len() as int) =~= s);
}

/// Carry-over: a line without any escape sequence, scanned while a token
/// is still active, keeps its text as it is and starts with that token
/// at offset zero.
pub proof fn lemma_carry_over(s: Seq<char>, codes: Seq<Seq<char>>, t: AttrToken)
    requires
        has_no_match(s),
    ensures
        scan_line(s, codes, Some(t)) == (ScanResult {
            stripped: s,
            changes: seq![(0int, t)],
            codes,
            last: Some(t),
        }),
{
    lemma_no_match_next_pos(s, 0);
    let base = scan_from(s, 0, 0, codes, Some(t));
    assert(base.stripped =~= s);
    assert(seq![(0int, t)] + base.changes =~= seq![(0int, t)]);
}

/// A line without any escape sequence, scanned while no token is active,
/// emits no change at all: after a clear nothing carries over.
pub proof fn lemma_no_carry_when_cleared(s: Seq<char>, codes: Seq<Seq<char>>)
    requires
        has_no_match(s),
    ensures
        scan_line(s, codes, None) == (ScanResult {
            stripped: s,
            changes: Seq::<(int, AttrToken)>::empty(),
            codes,
            last: None,
        }),
{
    lemma_no_match_next_pos(s, 0);
    let base = scan_from(s, 0, 0, codes, None);
    assert(base.stripped =~= s);
}


/// A line that is exactly a clear-line or clear-screen sequence emits no
/// attribute change, leaves no text, keeps the registry as it is, and
/// drops the carried token, whatever was active before.
pub proof fn lemma_clear_resets(s: Seq<char>, codes: Seq<Seq<char>>, last: Option<AttrToken>)
    requires
        crate::grammar::is_clear_code(s),
    ensures
        scan_line(s, codes, last) == (ScanResult {
            stripped: Seq::<char>::empty(),
            changes: Seq::<(int, AttrToken)>::empty(),
            codes,
            last: None,
        }),
{
    assert(match_end_at(s, 0) == Some(s.len() as int)) by {
        if s == crate::grammar::clear_line_code() {
            assert(crate::grammar::digit_run_end(s, 2) == 2);
            assert(crate::grammar::alt_control_end(s, 2) == Some(3int));
        } else {
            assert(crate::grammar::digit_run_end(s, 3) == 3);
            assert(crate::grammar::digit_run_end(s, 2) == 3);
            assert(crate::grammar::alt_cursor_pos_end(s, 2) is None);
            assert(crate::grammar::alt_cursor_move_end(s, 2) is None);
            assert(crate::grammar::alt_control_end(s, 2) == Some(4int));
        }
    }
    assert(next_match_pos(s, 0) == 0);
    let end = s.len() as int;
    assert(s.subrange(0, end) =~= s);
    lemma_next_match_pos(s, end);
    assert(next_match_pos(s, end) == s.len());
    let rest = scan_from(s, end, 0, codes, None);
    assert(rest.stripped =~= Seq::<char>::empty());
    let base = scan_from(s, 0, 0, codes, last);
    assert(base.stripped =~= Seq::<char>::empty());
    assert(base.changes =~= Seq::<(int, AttrToken)>::empty());
}

/// The runs of a walk over the change list: for each character offset
/// from `i` up to `n`, the stretch of changes landing at that offset,
/// with the cursor advancing exactly as the reconstruction iterator
/// advances it.
pub open spec fn runs_from(
    states: Seq<(usize, AttrToken)>,
    from: int,
    i: int,
    n: int,
) -> Seq<Seq<(usize, AttrToken)>>
    decreases n - i,
{
    if i >= n {
        Seq::empty()
    } else {
        let a = run_start(states, from, i);
        let b = run_end(states, a, i);
        seq![states.subrange(a, b)] + runs_from(states, b, i + 1, n)
    }
}

/// Iterator coverage: over a well-formed change list whose offsets all
/// lie before the end of the text, the walk yields one run per character,
/// and the runs joined together are exactly the change list, in order.
pub proof fn lemma_runs_cover(states: Seq<(usize, AttrToken)>, from: int, i: int, n: int)
    requires
        0 <= from <= states.len(),
        i <= n,
        forall|k: int, l: int|
            0 <= k <= l < states.len() ==> (#[trigger] states[k]).0 <= (#[trigger] states[l]).0,
        forall|k: int|
            from <= k < states.len() ==> i <= (#[trigger] states[k]).0 < n,
    ensures
        runs_from(states, from, i, n).len() == n - i,
        runs_from(states, from, i, n).flatten() == states.subrange(from, states.len() as int),
    decreases n - i,
{
    if i >= n {
        if from < states.len() {
            assert(i <= states[from as int].0 < n);
        }
        assert(states.subrange(from, states.len() as int) =~= Seq::<(usize, AttrToken)>::empty());
        assert(runs_from(states, from, i, n).flatten() =~= Seq::<(usize, AttrToken)>::empty());
    } else {
        let a = run_start(states, from, i);
        assert(a == from);
        let b = run_end(states, a, i);
        crate::styled::lemma_run_bounds(states, from, i);
        lemma_run_end_exceeds(states, a, i);
        assert forall|k: int| b <= k < states.len() implies i + 1 <= (#[trigger] states[k]).0
            < n by {
            assert(states[b].0 <= states[k].0);
        }
        lemma_runs_cover(states, b, i + 1, n);
        let head = states.subrange(a, b);
        let rest = runs_from(states, b, i + 1, n);
        assert(runs_from(states, from, i, n) == seq![head] + rest);
        assert((seq![head] + rest).first() == head);
        assert((seq![head] + rest).drop_first() =~= rest);
        assert((seq![head] + rest).flatten() == head + rest.flatten());
        assert(head + states.subrange(b, states.len() as int) =~= states.subrange(
            from,
            states.len() as int,
        ));
    }
}


/// The change at the run's end, when there is one, lands past offset `i`.
proof fn lemma_run_end_exceeds(states: Seq<(usize, AttrToken)>, from: int, i: int)
    requires
        0 <= from <= states.len(),
    ensures
        run_end(states, from, i) < states.len() ==> (states[run_end(states, from, i)].0 as int)
            > i,
    decreases states.len() - from,
{
    if from < states.len() && (states[from].0 as int) <= i {
        lemma_run_end_exceeds(states, from + 1, i);
    }
}


/// One walk step against the runs: at cursor `from` and character `i`,
/// the next run is the stretch the iterator yields with that character,
/// and the walk goes on with the cursor moved past it.
pub proof fn lemma_runs_unfold(states: Seq<(usize, AttrToken)>, from: int, i: int, n: int)
    requires
        i < n,
    ensures
        runs_from(states, from, i, n).first() == states.subrange(
            run_start(states, from, i),
            run_end(states, run_start(states, from, i), i),
        ),
        runs_from(states, from, i, n).drop_first() == runs_from(
            states,
            run_end(states, run_start(states, from, i), i),
            i + 1,
            n,
        ),
{
    let a = run_start(states, from, i);
    let b = run_end(states, a, i);
    let rest = runs_from(states, b, i + 1, n);
    assert((seq![states.subrange(a, b)] + rest).first() == states.subrange(a, b));
    assert((seq![states.subrange(a, b)] + rest).drop_first() =~= rest);
}

/// Iterator coverage over one styled text: when every change lands
/// strictly before the end of the stripped text, walking it yields one
/// run per character, and the runs joined together are exactly the
/// change list, in order.  A change at the position one past the end is
/// never reached by any character and is not yielded.
pub proof fn lemma_iterator_coverage(st: AnsiString)
    requires
        st.wf(),
        forall|k: int|
            0 <= k < st.changes().len() ==> (#[trigger] st.changes()[k]).0 < st.stripped@.len(),
    ensures
        runs_from(st.ansi_states@, 0, 0, st.stripped@.len() as int).len() == st.stripped@.len(),
        runs_from(st.ansi_states@, 0, 0, st.stripped@.len() as int).flatten()
            == st.ansi_states@,
{
    let states = st.ansi_states@;
    let n = st.stripped@.len() as int;
    assert forall|k: int, l: int| 0 <= k <= l < states.len() implies (#[trigger] states[k]).0
        <= (#[trigger] states[l]).0 by {
        assert(st.changes()[k].0 == states[k].0 as int);
        assert(st.changes()[l].0 == states[l].0 as int);
    }
    assert forall|k: int| 0 <= k < states.len() implies 0 <= (#[trigger] states[k]).0 < n by {
        assert(st.changes()[k].0 == states[k].0 as int);
    }
    lemma_runs_cover(states, 0, 0, n);
    assert(states.subrange(0, states.len() as int) =~= states);
}

} // verus!
