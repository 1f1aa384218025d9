//! The scanning matcher: walks the compiled pattern sequence against the
//! input's character sequence and records every located match span.
//!
//! The meaning of a pattern node is given by the specification evaluator
//! [`eval`]: evaluated at a character position it yields whether the node
//! matches there and the position after the characters it consumed.
//! Evaluation is greedy and never backtracks: characters consumed by a
//! partially successful child are kept even when the child fails.

use core::ops::Range;

use vstd::prelude::*;

use crate::iterators::{CharIter, PatternIter};
use crate::parser::{pview, pviews, spec_parse, Anchor, Atom, CharSet, GPat, GSet, Pattern};

verus! {

broadcast use crate::iterators::lemma_char_iter_idx_nonneg, crate::iterators::lemma_pattern_iter_idx_nonneg;

/// Whether `c` is an ASCII digit, the class of the digit atom.
pub open spec fn is_digit_char(c: char) -> bool {
    48 <= c as int <= 57
}

/// The alphanumeric class: whether `c` is a letter or a digit. Unicode
/// decides, so the result is named rather than written out; [`is_alnum`]
/// computes it.
pub uninterp spec fn alnum_of(c: char) -> bool;

/// Whether atom `a` accepts character `c`.
pub open spec fn atom_matches(a: Atom, c: char) -> bool {
    match a {
        Atom::Digit => is_digit_char(c),
        Atom::Alphanumeric => alnum_of(c),
        Atom::Wildcard => true,
        Atom::Char(ch) => c == ch,
    }
}

/// Whether character set `st` accepts character `c`: membership among the
/// listed atoms, inverted for a negative set.
pub open spec fn set_matches(st: GSet, c: char) -> bool {
    let member = exists|k: int| 0 <= k < st.atoms.len() && atom_matches(st.atoms[k], c);
    if st.negative {
        !member
    } else {
        member
    }
}

/// Evaluates one pattern node at position `i` of `s`: returns whether it
/// matched and the position after the characters it consumed (kept even on
/// failure).
pub open spec fn eval(p: GPat, s: Seq<char>, i: int) -> (bool, int)
    decreases s.len() - i, p, 0int,
{
    if i < 0 || i > s.len() {
        (false, i)
    } else {
        match p {
            GPat::Atom(a) => if i < s.len() && atom_matches(a, s[i]) {
                (true, i + 1)
            } else {
                (false, i)
            },
            GPat::Anchor(a) => match a {
                Anchor::Start => (i == 0, i),
                Anchor::End => (i >= s.len(), i),
            },
            GPat::CharSet(st) => if i < s.len() && set_matches(st, s[i]) {
                (true, i + 1)
            } else {
                (false, i)
            },
            GPat::Group(ps) => eval_seq(ps, s, i),
            GPat::OneOrMore(ps) => (eval_seq(ps, s, i).0, eval_star(ps, s, i)),
            GPat::ZeroOrMore(ps) => (true, eval_star(ps, s, i)),
            GPat::ZeroOrOne(ps) => (true, eval_seq(ps, s, i).1),
            GPat::Alternation(l, r) => {
                let (okl, jl) = eval_seq(l, s, i);
                if okl {
                    (true, jl)
                } else {
                    let j = if i <= jl && jl <= s.len() {
                        jl
                    } else {
                        i
                    };
                    eval_seq(r, s, j)
                }
            },
        }
    }
}

/// Evaluates a sequence of nodes in order, an ordered conjunction: stops at
/// the first failing member.
pub open spec fn eval_seq(ps: Seq<GPat>, s: Seq<char>, i: int) -> (bool, int)
    decreases s.len() - i, ps, 1int,
{
    if i < 0 || i > s.len() {
        (false, i)
    } else if ps.len() == 0 {
        (true, i)
    } else {
        let (ok0, j0) = eval(ps[0], s, i);
        if !ok0 {
            (false, j0)
        } else {
            let j = if i <= j0 && j0 <= s.len() {
                j0
            } else {
                i
            };
            eval_seq(ps.drop_first(), s, j)
        }
    }
}

/// Greedily repeats a node sequence until it fails or stops consuming;
/// returns the position reached (including characters consumed by the final
/// failed repetition).
pub open spec fn eval_star(ps: Seq<GPat>, s: Seq<char>, i: int) -> int
    decreases s.len() - i, ps, 2int,
{
    if i < 0 || i > s.len() {
        i
    } else {
        let (ok, j) = eval_seq(ps, s, i);
        if !ok {
            j
        } else if i < j && j <= s.len() {
            eval_star(ps, s, j)
        } else {
            j
        }
    }
}

/// Evaluation never moves the position backwards and never runs past the end
/// of the input.
pub proof fn lemma_eval_bounds(p: GPat, s: Seq<char>, i: int)
    requires
        0 <= i <= s.len(),
    ensures
        i <= eval(p, s, i).1 <= s.len(),
    decreases s.len() - i, p, 0int,
{
    match p {
        GPat::Group(ps) => lemma_eval_seq_bounds(ps, s, i),
        GPat::OneOrMore(ps) => lemma_eval_star_bounds(ps, s, i),
        GPat::ZeroOrMore(ps) => lemma_eval_star_bounds(ps, s, i),
        GPat::ZeroOrOne(ps) => lemma_eval_seq_bounds(ps, s, i),
        GPat::Alternation(l, r) => {
            lemma_eval_seq_bounds(l, s, i);
            let (okl, jl) = eval_seq(l, s, i);
            if !okl {
                lemma_eval_seq_bounds(r, s, jl);
            }
        },
        _ => {},
    }
}

/// Bounds of [`lemma_eval_bounds`], for a node sequence.
pub proof fn lemma_eval_seq_bounds(ps: Seq<GPat>, s: Seq<char>, i: int)
    requires
        0 <= i <= s.len(),
    ensures
        i <= eval_seq(ps, s, i).1 <= s.len(),
    decreases s.len() - i, ps, 1int,
{
    if ps.len() > 0 {
        lemma_eval_bounds(ps[0], s, i);
        let (ok0, j0) = eval(ps[0], s, i);
        if ok0 {
            lemma_eval_seq_bounds(ps.drop_first(), s, j0);
        }
    }
}

/// Bounds of [`lemma_eval_bounds`], for greedy repetition.
pub proof fn lemma_eval_star_bounds(ps: Seq<GPat>, s: Seq<char>, i: int)
    requires
        0 <= i <= s.len(),
    ensures
        i <= eval_star(ps, s, i) <= s.len(),
    decreases s.len() - i, ps, 2int,
{
    lemma_eval_seq_bounds(ps, s, i);
    let (ok, j) = eval_seq(ps, s, i);
    if ok && i < j && j <= s.len() {
        lemma_eval_star_bounds(ps, s, j);
    }
}

/// Evaluating a one-node sequence is evaluating the node.
pub proof fn lemma_eval_singleton(g: GPat, s: Seq<char>, i: int)
    requires
        0 <= i <= s.len(),
    ensures
        eval_seq(seq![g], s, i) == eval(g, s, i),
{
    lemma_eval_bounds(g, s, i);
    assert(seq![g].len() == 1);
    assert(seq![g][0] == g);
    let (ok0, j0) = eval(g, s, i);
    assert(eval(seq![g][0], s, i) == eval(g, s, i));
    if ok0 {
        assert(seq![g].drop_first() =~= Seq::<GPat>::empty());
        assert(eval_seq(seq![g].drop_first(), s, j0) == (true, j0));
    }
    assert(eval_seq(seq![g], s, i) == eval(g, s, i));
}

/// The half-open interval of one recorded match, as a pair of character
/// indices.
pub open spec fn span_of(r: Range<usize>) -> (int, int) {
    (r.start as int, r.end as int)
}

/// The models of a list of recorded matches, element by element.
pub open spec fn spans_of(v: Seq<Range<usize>>) -> Seq<(int, int)>
    decreases v.len(),
{
    if v.len() == 0 {
        Seq::empty()
    } else {
        spans_of(v.drop_last()).push(span_of(v.last()))
    }
}

/// A list of matches and its model have the same length, and corresponding
/// elements.
pub proof fn lemma_spans_of_index(v: Seq<Range<usize>>, k: int)
    requires
        0 <= k < v.len(),
    ensures
        spans_of(v).len() == v.len(),
        spans_of(v)[k] == span_of(v[k]),
    decreases v.len(),
{
    lemma_spans_of_len(v);
    if k < v.len() - 1 {
        lemma_spans_of_index(v.drop_last(), k);
    }
}

/// A list of matches and its model have the same length.
pub proof fn lemma_spans_of_len(v: Seq<Range<usize>>)
    ensures
        spans_of(v).len() == v.len(),
    decreases v.len(),
{
    if v.len() > 0 {
        lemma_spans_of_len(v.drop_last());
    }
}

/// Appending a match models as appending its span.
pub proof fn lemma_spans_of_push(v: Seq<Range<usize>>, r: Range<usize>)
    ensures
        spans_of(v.push(r)) == spans_of(v).push(span_of(r)),
{
    assert(v.push(r).drop_last() =~= v);
}

/// Whether `c` is an ASCII digit, executably.
fn digit_test(c: char) -> (r: bool)
    ensures
        r == is_digit_char(c),
{
    let u = c as u32;
    48 <= u && u <= 57
}

/// Relies on char::is_alphanumeric: whether `c` is a letter or a digit; the
/// result depends on the character alone.
#[verifier::external_body]
fn is_alnum(c: char) -> (r: bool)
    ensures
        r == alnum_of(c),
{
    c.is_alphanumeric()
}

/// Whether any atom of `v` accepts `c`.
fn any_atom_test(v: &Vec<Atom>, c: char) -> (r: bool)
    ensures
        r == exists|t: int| 0 <= t < v@.len() && atom_matches(v@[t], c),
{
    let mut k: usize = 0;
    while k < v.len()
        invariant
            k <= v@.len(),
            forall|t: int| 0 <= t < k ==> !atom_matches(v@[t], c),
        decreases v@.len() - k,
    {
        let hit = match v[k] {
            Atom::Digit => digit_test(c),
            Atom::Alphanumeric => is_alnum(c),
            Atom::Wildcard => true,
            Atom::Char(ch) => c == ch,
        };
        if hit {
            return true;
        }
        k += 1;
    }
    false
}

proof fn lemma_member_bridge(atoms: Seq<Atom>, c: char)
    ensures
        (exists|t: int| 0 <= t < atoms.len() && atom_matches(atoms[t], c)) == set_matches(
            GSet { negative: false, atoms },
            c,
        ),
        (!(exists|t: int| 0 <= t < atoms.len() && atom_matches(atoms[t], c))) == set_matches(
            GSet { negative: true, atoms },
            c,
        ),
{
    let stp = GSet { negative: false, atoms };
    let stn = GSet { negative: true, atoms };
    assert(stp.atoms == atoms);
    assert(stn.atoms == atoms);
    if exists|t: int| 0 <= t < atoms.len() && atom_matches(atoms[t], c) {
        let t0 = choose|t: int| 0 <= t < atoms.len() && atom_matches(atoms[t], c);
        assert(0 <= t0 < stp.atoms.len() && atom_matches(stp.atoms[t0], c));
        assert(0 <= t0 < stn.atoms.len() && atom_matches(stn.atoms[t0], c));
    }
    if exists|k: int| 0 <= k < stp.atoms.len() && atom_matches(stp.atoms[k], c) {
        let k0 = choose|k: int| 0 <= k < stp.atoms.len() && atom_matches(stp.atoms[k], c);
        assert(0 <= k0 < atoms.len() && atom_matches(atoms[k0], c));
    }
    if exists|k: int| 0 <= k < stn.atoms.len() && atom_matches(stn.atoms[k], c) {
        let k0 = choose|k: int| 0 <= k < stn.atoms.len() && atom_matches(stn.atoms[k], c);
        assert(0 <= k0 < atoms.len() && atom_matches(atoms[k0], c));
    }
}


/// The scan loop's state: character position, pattern position, the open
/// match's start, the position the current attempt started from, and the
/// spans recorded so far.
pub ghost struct ScanState {
    pub i: int,
    pub p: int,
    pub start: Option<int>,
    pub origin: int,
    pub spans: Seq<(int, int)>,
}

/// The start a closing match is recorded with: the open match's start, or,
/// with no match open, the current position (a zero-width close).
pub open spec fn close_start(st: ScanState) -> int {
    match st.start {
        Some(m) => m,
        None => st.i,
    }
}

/// One iteration of the scan loop. With a node left to try, evaluate it:
/// success opens a match at the position the attempt began consuming from,
/// or extends the open one; failure abandons an open attempt one character
/// after its start, or moves to the next starting position. With the
/// sequence exhausted, record the span and restart; a restart that did not
/// advance moves one character on, since retrying the same position could
/// only repeat itself forever.
pub open spec fn scan_step(pats: Seq<GPat>, s: Seq<char>, st: ScanState) -> ScanState {
    if 0 <= st.p < pats.len() {
        let (ok, j) = eval(pats[st.p], s, st.i);
        if ok && st.start is None {
            ScanState { i: j, p: st.p + 1, start: Some(st.i), origin: st.origin, spans: st.spans }
        } else if ok {
            ScanState { i: j, p: st.p + 1, start: st.start, origin: st.origin, spans: st.spans }
        } else if st.start is Some {
            let i2 = st.start->0 + 1;
            ScanState { i: i2, p: 0, start: None, origin: i2, spans: st.spans }
        } else {
            let i2 = if j < s.len() {
                j + 1
            } else {
                j
            };
            ScanState { i: i2, p: st.p, start: None, origin: i2, spans: st.spans }
        }
    } else {
        let spans2 = st.spans.push((close_start(st), st.i));
        let i2 = if st.i == st.origin && st.i < s.len() {
            st.i + 1
        } else {
            st.i
        };
        ScanState { i: i2, p: 0, start: None, origin: i2, spans: spans2 }
    }
}

/// The scan state after `n` iterations.
pub open spec fn scan_steps(pats: Seq<GPat>, s: Seq<char>, st: ScanState, n: nat) -> ScanState
    decreases n,
{
    if n == 0 {
        st
    } else {
        scan_step(pats, s, scan_steps(pats, s, st, (n - 1) as nat))
    }
}

/// The final bookkeeping once the input is exhausted: when the pattern
/// cursor is exhausted too, or rests on an end anchor, the still-open match
/// closes and its span is recorded.
pub open spec fn scan_finish(pats: Seq<GPat>, s: Seq<char>, st: ScanState) -> Seq<(int, int)> {
    if !(0 <= st.p < pats.len()) || pats[st.p] == GPat::Anchor(Anchor::End) {
        st.spans.push((close_start(st), st.i))
    } else {
        st.spans
    }
}

/// The scanning matcher over one compiled pattern and one input line.
pub struct Matcher {
    patterns: PatternIter,
    chars: CharIter,
    match_start: Option<usize>,
    pub matches: Vec<Range<usize>>,
}

impl Matcher {
    /// The models of the compiled top-level nodes.
    pub closed spec fn gpats(&self) -> Seq<GPat> {
        self.patterns.gpats()
    }

    /// The pattern cursor's position.
    pub closed spec fn pidx(&self) -> int {
        self.patterns.idx()
    }

    /// The input's character sequence.
    pub closed spec fn text(&self) -> Seq<char> {
        self.chars.seq()
    }

    /// The character cursor's position.
    pub closed spec fn cidx(&self) -> int {
        self.chars.idx()
    }

    /// The open match's start, if a match is in progress.
    pub closed spec fn mstart(&self) -> Option<int> {
        match self.match_start {
            Some(u) => Some(u as int),
            None => None,
        }
    }

    /// The spans recorded so far.
    pub closed spec fn spans(&self) -> Seq<(int, int)> {
        spans_of(self.matches@)
    }

    /// Compiles `pattern` and readies a scan of `input` from its start.
    pub fn new(pattern: &str, input: &str) -> (r: Result<Self, String>)
        ensures
            ({
                let (rr, j) = spec_parse(pattern@, 0, false, Seq::empty());
                match rr {
                    Ok(ps) => r matches Ok(m) && m.gpats() == ps && m.pidx() == 0 && m.text()
                        == input@ && m.cidx() == 0 && m.mstart() is None && m.spans()
                        == Seq::<(int, int)>::empty(),
                    Err(e) => r matches Err(msg) && msg@ == e,
                }
            }),
    {
        let patterns = match PatternIter::new(pattern) {
            Ok(p) => p,
            Err(e) => {
                return Err(e);
            },
        };
        let chars = match CharIter::new(input) {
            Ok(c) => c,
            Err(e) => {
                return Err(e);
            },
        };
        Ok(Self { patterns, chars, match_start: None, matches: Vec::new() })
    }



    /// Opens a match at `start`, the position the current attempt began
    /// consuming from.
    fn start_match(&mut self, start: usize)
        ensures
            final(self).patterns == old(self).patterns,
            final(self).chars == old(self).chars,
            final(self).matches == old(self).matches,
            final(self).mstart() == Some(start as int),
    {
        self.match_start = Some(start);
    }

    /// Records the span of the match in progress and readies the cursors for
    /// the next, non-overlapping search; with no match open, a zero-width
    /// one is opened at the current position and closed at once.
    fn end_match(&mut self)
        ensures
            final(self).chars == old(self).chars,
            final(self).gpats() == old(self).gpats(),
            final(self).pidx() == 0,
            final(self).mstart() is None,
            final(self).matches@ == old(self).matches@.push(
                Range {
                    start: (match old(self).mstart() {
                        Some(m) => m,
                        None => old(self).cidx(),
                    }) as usize,
                    end: old(self).cidx() as usize,
                },
            ),
        decreases (match self.match_start {
            Some(_) => 0int,
            None => 1int,
        }),
    {
        if let Some(start) = self.match_start {
            let e = self.chars.pos();
            self.matches.push(Range { start, end: e });
            self.match_start = None;
            self.patterns.reset();
        } else {
            let i = self.chars.pos();
            self.start_match(i);
            self.end_match();
        }
    }

    /// Abandons the match in progress: rewinds the character cursor to one
    /// past the match's start and resets the pattern cursor.
    fn reset_match(&mut self)
        requires
            match old(self).mstart() {
                Some(m) => m < usize::MAX,
                None => true,
            },
        ensures
            final(self).text() == old(self).text(),
            final(self).gpats() == old(self).gpats(),
            final(self).matches == old(self).matches,
            match old(self).mstart() {
                Some(m) => {
                    &&& final(self).cidx() == m + 1
                    &&& final(self).mstart() is None
                    &&& final(self).pidx() == 0
                },
                None => *final(self) == *old(self),
            },
    {
        if let Some(start) = self.match_start {
            self.chars.set_index(start + 1);
            self.match_start = None;
            self.patterns.reset();
        }
    }

    /// Evaluates one pattern node against the character cursor, consuming
    /// exactly the characters the specification evaluator says it consumes.
    #[verifier::rlimit(100)]
    fn match_pattern(&mut self, pattern: &Pattern) -> (m: bool)
        requires
            old(self).cidx() <= old(self).text().len(),
        ensures
            final(self).patterns == old(self).patterns,
            final(self).match_start == old(self).match_start,
            final(self).matches == old(self).matches,
            final(self).chars.seq() == old(self).chars.seq(),
            ({
                let (ok, j) = eval(pview(*pattern), old(self).chars.seq(), old(self).chars.idx());
                m == ok && final(self).chars.idx() == j
            }),
        decreases self.chars.seq().len() - self.chars.idx(), *pattern,
    {
        let ghost s = self.chars.seq();
        let ghost i0 = self.chars.idx();
        match pattern {
            Pattern::Atom(pat) => self.match_atom(pat, true),
            Pattern::Anchor(pat) => self.match_anchor(pat),
            Pattern::CharSet(pat) => self.match_set(pat),
            Pattern::Group(pat) => {
                let ghost gv = pviews(pat@);
                proof {
                    crate::parser::lemma_pviews_len(pat@);
                    assert(gv.skip(0) =~= gv);
                }
                let mut ok = true;
                let mut k: usize = 0;
                loop
                    invariant_except_break
                        s == old(self).chars.seq(),
                        i0 == old(self).chars.idx(),
                        *pattern == Pattern::Group(*pat),
                        gv == pviews(pat@),
                        gv.len() == pat@.len(),
                        0 <= k <= pat@.len(),
                        ok,
                        self.patterns == old(self).patterns,
                        self.match_start == old(self).match_start,
                        self.matches == old(self).matches,
                        self.chars.seq() == s,
                        i0 <= self.chars.idx() <= s.len(),
                        eval_seq(gv, s, i0) == eval_seq(gv.skip(k as int), s, self.chars.idx()),
                    ensures
                        self.patterns == old(self).patterns,
                        self.match_start == old(self).match_start,
                        self.matches == old(self).matches,
                        self.chars.seq() == s,
                        i0 <= self.chars.idx() <= s.len(),
                        eval_seq(gv, s, i0) == (ok, self.chars.idx()),
                    decreases pat@.len() - k,
                {
                    if k >= pat.len() {
                        proof {
                            assert(gv.skip(k as int) =~= Seq::<GPat>::empty());
                        }
                        break;
                    }
                    let ghost ipre = self.chars.idx();
                    proof {
                        assert(decreases_to!(*pattern => (*pattern)->Group_0));
                        assert(decreases_to!((*pattern)->Group_0 => (*pattern)->Group_0@));
                        assert(decreases_to!((*pattern)->Group_0@ => (*pattern)->Group_0@[k as int]));
                    }
                    let m1 = self.match_pattern(&pat[k]);
                    proof {
                        crate::parser::lemma_pviews_index(pat@, k as int);
                        assert(gv.skip(k as int)[0] == gv[k as int]);
                        assert(gv.skip(k as int).drop_first() =~= gv.skip(k + 1));
                        lemma_eval_bounds(pview(pat@[k as int]), s, ipre);
                    }
                    if !m1 {
                        ok = false;
                        proof {
                            assert(eval_seq(gv.skip(k as int), s, ipre) == (
                                false,
                                self.chars.idx(),
                            ));
                        }
                        break;
                    }
                    k += 1;
                    proof {
                        assert(eval_seq(gv, s, i0) == eval_seq(
                            gv.skip(k as int),
                            s,
                            self.chars.idx(),
                        ));
                    }
                }
                proof {
                    assert(pview(*pattern) == GPat::Group(gv));
                }
                ok
            },
            Pattern::OneOrMore(pat) => {
                let ghost cv = seq![pview(**pat)];
                let mut matched = false;
                loop
                    invariant_except_break
                        s == old(self).chars.seq(),
                        i0 == old(self).chars.idx(),
                        *pattern == Pattern::OneOrMore(*pat),
                        cv == seq![pview(**pat)],
                        self.patterns == old(self).patterns,
                        self.match_start == old(self).match_start,
                        self.matches == old(self).matches,
                        self.chars.seq() == s,
                        i0 <= self.chars.idx() <= s.len(),
                        matched ==> eval_seq(cv, s, i0).0,
                        !matched ==> self.chars.idx() == i0,
                        eval_star(cv, s, i0) == eval_star(cv, s, self.chars.idx()),
                    ensures
                        self.patterns == old(self).patterns,
                        self.match_start == old(self).match_start,
                        self.matches == old(self).matches,
                        self.chars.seq() == s,
                        i0 <= self.chars.idx() <= s.len(),
                        matched == eval_seq(cv, s, i0).0,
                        self.chars.idx() == eval_star(cv, s, i0),
                    decreases s.len() - self.chars.idx(),
                {
                    let before = self.chars.pos();
                    proof {
                        assert(decreases_to!(*pattern => (*pattern)->OneOrMore_0));
                    }
                    let m1 = self.match_pattern(pat);
                    proof {
                        lemma_eval_singleton(pview(**pat), s, before as int);
                        lemma_eval_seq_bounds(cv, s, before as int);
                    }
                    if !m1 {
                        proof {
                            assert(eval_star(cv, s, before as int) == self.chars.idx());
                        }
                        break;
                    }
                    matched = true;
                    if self.chars.pos() == before {
                        proof {
                            assert(eval_star(cv, s, before as int) == self.chars.idx());
                        }
                        break;
                    }
                }
                proof {
                    assert(pview(*pattern) == GPat::OneOrMore(cv));
                }
                matched
            },
            Pattern::ZeroOrMore(pat) => {
                let ghost cv = seq![pview(**pat)];
                let mut matched = false;
                loop
                    invariant_except_break
                        s == old(self).chars.seq(),
                        i0 == old(self).chars.idx(),
                        *pattern == Pattern::ZeroOrMore(*pat),
                        cv == seq![pview(**pat)],
                        self.patterns == old(self).patterns,
                        self.match_start == old(self).match_start,
                        self.matches == old(self).matches,
                        self.chars.seq() == s,
                        i0 <= self.chars.idx() <= s.len(),
                        eval_star(cv, s, i0) == eval_star(cv, s, self.chars.idx()),
                    ensures
                        self.patterns == old(self).patterns,
                        self.match_start == old(self).match_start,
                        self.matches == old(self).matches,
                        self.chars.seq() == s,
                        i0 <= self.chars.idx() <= s.len(),
                        self.chars.idx() == eval_star(cv, s, i0),
                    decreases s.len() - self.chars.idx(),
                {
                    let before = self.chars.pos();
                    proof {
                        assert(decreases_to!(*pattern => (*pattern)->ZeroOrMore_0));
                    }
                    let m1 = self.match_pattern(pat);
                    proof {
                        lemma_eval_singleton(pview(**pat), s, before as int);
                        lemma_eval_seq_bounds(cv, s, before as int);
                    }
                    if !m1 {
                        proof {
                            assert(eval_star(cv, s, before as int) == self.chars.idx());
                        }
                        break;
                    }
                    if self.chars.pos() == before {
                        proof {
                            assert(eval_star(cv, s, before as int) == self.chars.idx());
                        }
                        break;
                    }
                }
                proof {
                    assert(pview(*pattern) == GPat::ZeroOrMore(cv));
                }
                true
            },
            Pattern::ZeroOrOne(pat) => {
                let _m = self.match_pattern(pat);
                proof {
                    lemma_eval_singleton(pview(**pat), s, i0);
                    assert(pview(*pattern) == GPat::ZeroOrOne(seq![pview(**pat)]));
                }
                true
            },
            Pattern::Alternation(lhs, rhs) => {
                let m1 = self.match_pattern(lhs);
                proof {
                    lemma_eval_singleton(pview(**lhs), s, i0);
                    assert(pview(*pattern) == GPat::Alternation(
                        seq![pview(**lhs)],
                        seq![pview(**rhs)],
                    ));
                }
                if m1 {
                    true
                } else {
                    proof {
                        lemma_eval_bounds(pview(**lhs), s, i0);
                    }
                    let ghost jl = self.chars.idx();
                    let m2 = self.match_pattern(rhs);
                    proof {
                        lemma_eval_singleton(pview(**rhs), s, jl);
                    }
                    m2
                }
            },
        }
    }

    /// Tests one atom at the current position; on success consumes the
    /// character when `consuming` is set.
    fn match_atom(&mut self, pattern: &Atom, consuming: bool) -> (m: bool)
        ensures
            final(self).patterns == old(self).patterns,
            final(self).match_start == old(self).match_start,
            final(self).matches == old(self).matches,
            final(self).chars.seq() == old(self).chars.seq(),
            m == (old(self).cidx() < old(self).text().len() && atom_matches(
                *pattern,
                old(self).text()[old(self).cidx()],
            )),
            final(self).cidx() == if m && consuming {
                old(self).cidx() + 1
            } else {
                old(self).cidx()
            },
    {
        if let Some(c) = self.chars.peek() {
            let result = match pattern {
                Atom::Digit => digit_test(c),
                Atom::Alphanumeric => is_alnum(c),
                Atom::Char(ch) => c == *ch,
                Atom::Wildcard => true,
            };
            if result && consuming {
                self.chars.consume();
            }
            result
        } else {
            false
        }
    }

    /// Tests one anchor at the current position; consumes nothing.
    fn match_anchor(&mut self, pattern: &Anchor) -> (m: bool)
        ensures
            *final(self) == *old(self),
            m == match *pattern {
                Anchor::Start => old(self).cidx() == 0,
                Anchor::End => old(self).cidx() >= old(self).text().len(),
            },
    {
        match pattern {
            Anchor::Start => self.chars.pos() == 0,
            Anchor::End => self.chars.peek().is_none(),
        }
    }

    /// Tests one character set at the current position, consuming the
    /// character on success.
    fn match_set(&mut self, pattern: &CharSet) -> (m: bool)
        ensures
            final(self).patterns == old(self).patterns,
            final(self).match_start == old(self).match_start,
            final(self).matches == old(self).matches,
            final(self).chars.seq() == old(self).chars.seq(),
            m == (old(self).cidx() < old(self).text().len() && set_matches(
                crate::parser::sview(*pattern),
                old(self).text()[old(self).cidx()],
            )),
            final(self).cidx() == if m {
                old(self).cidx() + 1
            } else {
                old(self).cidx()
            },
    {
        if let Some(c) = self.chars.peek() {
            let result = match pattern {
                CharSet::Positive(set) => {
                    let member = any_atom_test(set, c);
                    proof {
                        assert(crate::parser::sview(*pattern) == GSet {
                            negative: false,
                            atoms: set@,
                        });
                        lemma_member_bridge(set@, c);
                    }
                    member
                },
                CharSet::Negative(set) => {
                    let member = any_atom_test(set, c);
                    proof {
                        assert(crate::parser::sview(*pattern) == GSet {
                            negative: true,
                            atoms: set@,
                        });
                        lemma_member_bridge(set@, c);
                    }
                    !member
                },
            };
            if result {
                self.chars.consume();
            }
            result
        } else {
            false
        }
    }
}



/// A zero-or-more node always succeeds, whatever its operand and position.
pub proof fn lemma_zero_or_more_always_succeeds(ps: Seq<GPat>, s: Seq<char>, i: int)
    requires
        0 <= i <= s.len(),
    ensures
        eval(GPat::ZeroOrMore(ps), s, i).0,
{
}

/// A zero-or-one node always succeeds, whatever its operand and position.
pub proof fn lemma_zero_or_one_always_succeeds(ps: Seq<GPat>, s: Seq<char>, i: int)
    requires
        0 <= i <= s.len(),
    ensures
        eval(GPat::ZeroOrOne(ps), s, i).0,
{
}

/// A one-or-more node succeeds exactly when its operand succeeds once at the
/// current position.
pub proof fn lemma_one_or_more_iff_once(ps: Seq<GPat>, s: Seq<char>, i: int)
    requires
        0 <= i <= s.len(),
    ensures
        eval(GPat::OneOrMore(ps), s, i).0 == eval_seq(ps, s, i).0,
{
}

/// A zero-or-one node over a single atom consumes that atom's character
/// exactly when the atom matches there.
pub proof fn lemma_zero_or_one_atom_consumes_iff(a: Atom, s: Seq<char>, i: int)
    requires
        0 <= i <= s.len(),
    ensures
        ({
            let (ok, j) = eval(GPat::ZeroOrOne(seq![GPat::Atom(a)]), s, i);
            ok && j == if i < s.len() && atom_matches(a, s[i]) {
                i + 1
            } else {
                i
            }
        }),
{
    lemma_eval_singleton(GPat::Atom(a), s, i);
}

/// The digit atom matches exactly the characters `0` through `9`.
pub proof fn lemma_digit_atom_exact(s: Seq<char>, i: int)
    requires
        0 <= i <= s.len(),
    ensures
        eval(GPat::Atom(Atom::Digit), s, i).0 == (i < s.len() && '0' <= s[i] && s[i] <= '9'),
{
}

/// The alphanumeric atom matches exactly the characters of the alphanumeric
/// class, wherever one remains.
pub proof fn lemma_word_atom_exact(s: Seq<char>, i: int)
    requires
        0 <= i <= s.len(),
    ensures
        eval(GPat::Atom(Atom::Alphanumeric), s, i).0 == (i < s.len() && alnum_of(s[i])),
{
}

/// A positive set of literal atoms matches exactly the listed characters,
/// and a negative one exactly the rest.
pub proof fn lemma_set_membership_exact(atoms: Seq<Atom>, c: char)
    requires
        forall|k: int| 0 <= k < atoms.len() ==> (#[trigger] atoms[k]) matches Atom::Char(_),
    ensures
        set_matches(GSet { negative: false, atoms }, c) <==> (exists|k: int|
            0 <= k < atoms.len() && atoms[k] == Atom::Char(c)),
        set_matches(GSet { negative: true, atoms }, c) <==> !(exists|k: int|
            0 <= k < atoms.len() && atoms[k] == Atom::Char(c)),
{
    let stp = GSet { negative: false, atoms };
    assert(stp.atoms == atoms);
    if exists|k: int| 0 <= k < atoms.len() && atoms[k] == Atom::Char(c) {
        let k0 = choose|k: int| 0 <= k < atoms.len() && atoms[k] == Atom::Char(c);
        assert(atom_matches(atoms[k0], c));
        assert(0 <= k0 < stp.atoms.len() && atom_matches(stp.atoms[k0], c));
    }
    if exists|k: int| 0 <= k < stp.atoms.len() && atom_matches(stp.atoms[k], c) {
        let k0 = choose|k: int| 0 <= k < stp.atoms.len() && atom_matches(stp.atoms[k], c);
        assert(atoms[k0] matches Atom::Char(_));
        assert(atoms[k0] == Atom::Char(c));
    }
    lemma_member_bridge(atoms, c);
}

/// Alternation prefers its left branch: when the left branch succeeds, the
/// outcome is the left branch's alone, and the right branch is never
/// consulted; only when the left branch fails does the right branch decide,
/// starting from wherever the failed left branch stopped.
pub proof fn lemma_alternation_left_preference(l: Seq<GPat>, r: Seq<GPat>, s: Seq<char>, i: int)
    requires
        0 <= i <= s.len(),
    ensures
        eval_seq(l, s, i).0 ==> eval(GPat::Alternation(l, r), s, i) == (true, eval_seq(l, s, i).1),
        !eval_seq(l, s, i).0 ==> eval(GPat::Alternation(l, r), s, i) == eval_seq(
            r,
            s,
            eval_seq(l, s, i).1,
        ),
{
    lemma_eval_seq_bounds(l, s, i);
}



/// Anchors are positional only: the start anchor holds exactly at index 0,
/// the end anchor exactly when no character remains, and neither consumes a
/// character.
pub proof fn lemma_anchors_positional(s: Seq<char>, i: int)
    requires
        0 <= i <= s.len(),
    ensures
        eval(GPat::Anchor(Anchor::Start), s, i) == ((i == 0), i),
        eval(GPat::Anchor(Anchor::End), s, i) == ((i == s.len()), i),
{
}

/// Whether every node of `ps` is a literal-character atom.
pub open spec fn all_literals(ps: Seq<GPat>) -> bool {
    forall|k: int| 0 <= k < ps.len() ==> (#[trigger] ps[k]) matches GPat::Atom(Atom::Char(_))
}

/// Matching a sequence of literal-character nodes at one position is plain
/// substring comparison: it succeeds exactly when the input carries those
/// characters, in order, starting there.
pub proof fn lemma_literal_seq_is_substring(ps: Seq<GPat>, s: Seq<char>, i: int)
    requires
        0 <= i <= s.len(),
        all_literals(ps),
    ensures
        eval_seq(ps, s, i).0 <==> (i + ps.len() <= s.len() && (forall|t: int|
            0 <= t < ps.len() ==> s[i + t] == (#[trigger] ps[t])->Atom_0->Char_0)),
    decreases ps.len(),
{
    if ps.len() > 0 {
        assert(ps[0] matches GPat::Atom(Atom::Char(_)));
        let c0 = ps[0]->Atom_0->Char_0;
        let (ok0, j0) = eval(ps[0], s, i);
        assert(ok0 == (i < s.len() && s[i] == c0));
        if ok0 {
            let tail = ps.drop_first();
            assert(all_literals(tail)) by {
                assert(forall|k: int|
                    0 <= k < tail.len() ==> (#[trigger] tail[k]) == ps[k + 1]);
            }
            lemma_literal_seq_is_substring(tail, s, i + 1);
            assert(eval_seq(ps, s, i).0 == eval_seq(tail, s, i + 1).0);
            if eval_seq(tail, s, i + 1).0 {
                assert forall|t: int| 0 <= t < ps.len() implies s[i + t] == (#[trigger] ps[t])->Atom_0->Char_0 by {
                    if t > 0 {
                        assert(tail[t - 1] == ps[t]);
                        assert(s[(i + 1) + (t - 1)] == tail[t - 1]->Atom_0->Char_0);
                    }
                }
            } else {
                if i + ps.len() <= s.len() && (forall|t: int|
                    0 <= t < ps.len() ==> s[i + t] == (#[trigger] ps[t])->Atom_0->Char_0) {
                    assert forall|t: int|
                        0 <= t < tail.len() implies s[(i + 1) + t] == (#[trigger] tail[t])->Atom_0->Char_0 by {
                        assert(tail[t] == ps[t + 1]);
                        assert(s[i + (t + 1)] == ps[t + 1]->Atom_0->Char_0);
                    }
                    assert(false);
                }
            }
        } else {
            if i < s.len() {
                assert(s[i + 0] != ps[0]->Atom_0->Char_0);
            }
        }
    }
}


/// Whether a span list is non-overlapping in discovery order.
pub open spec fn spans_non_overlapping(sp: Seq<(int, int)>) -> bool {
    forall|a: int, b: int| 0 <= a < b < sp.len() ==> (#[trigger] sp[a]).1 <= (#[trigger] sp[b]).0
}

/// Evaluating a concatenated node sequence runs the first part, and on its
/// success the second part from where the first stopped.
pub proof fn lemma_eval_seq_concat(xs: Seq<GPat>, ys: Seq<GPat>, s: Seq<char>, i: int)
    requires
        0 <= i <= s.len(),
    ensures
        ({
            let (ok1, j1) = eval_seq(xs, s, i);
            if ok1 {
                eval_seq(xs + ys, s, i) == eval_seq(ys, s, j1)
            } else {
                eval_seq(xs + ys, s, i) == (false, j1)
            }
        }),
    decreases s.len() - i, xs,
{
    lemma_eval_seq_bounds(xs, s, i);
    if xs.len() == 0 {
        assert(xs + ys =~= ys);
    } else {
        assert((xs + ys)[0] == xs[0]);
        lemma_eval_bounds(xs[0], s, i);
        let (ok0, j0) = eval(xs[0], s, i);
        if ok0 {
            assert((xs + ys).drop_first() =~= xs.drop_first() + ys);
            lemma_eval_seq_concat(xs.drop_first(), ys, s, j0);
        } else {
            assert(eval_seq(xs + ys, s, i) == (false, j0));
        }
    }
}

/// A start-anchored literal sequence matches at a position exactly when
/// that position is the very start of the input and the literals appear
/// there: `^` followed by literals means "begins with".
pub proof fn lemma_start_anchored_literals(lits: Seq<GPat>, s: Seq<char>, i: int)
    requires
        0 <= i <= s.len(),
        all_literals(lits),
    ensures
        eval_seq(seq![GPat::Anchor(Anchor::Start)] + lits, s, i).0 <==> (i == 0 && lits.len()
            <= s.len() && (forall|t: int|
            0 <= t < lits.len() ==> s[t] == (#[trigger] lits[t])->Atom_0->Char_0)),
{
    lemma_eval_seq_concat(seq![GPat::Anchor(Anchor::Start)], lits, s, i);
    lemma_eval_singleton(GPat::Anchor(Anchor::Start), s, i);
    if i == 0 {
        lemma_literal_seq_is_substring(lits, s, 0);
    }
}

/// An end-anchored literal sequence matches at a position exactly when the
/// literals appear there and reach the end of the input: literals followed
/// by `$` means "ends with".
pub proof fn lemma_end_anchored_literals(lits: Seq<GPat>, s: Seq<char>, i: int)
    requires
        0 <= i <= s.len(),
        all_literals(lits),
    ensures
        eval_seq(lits + seq![GPat::Anchor(Anchor::End)], s, i).0 <==> (i + lits.len() == s.len()
            && (forall|t: int|
            0 <= t < lits.len() ==> s[i + t] == (#[trigger] lits[t])->Atom_0->Char_0)),
{
    lemma_eval_seq_concat(lits, seq![GPat::Anchor(Anchor::End)], s, i);
    lemma_literal_seq_is_substring(lits, s, i);
    lemma_eval_seq_bounds(lits, s, i);
    let (ok1, j1) = eval_seq(lits, s, i);
    if ok1 {
        lemma_eval_singleton(GPat::Anchor(Anchor::End), s, j1);
        lemma_literal_consumes_exactly(lits, s, i);
    }
}

/// A sequence of literal-character nodes that matches consumes exactly its
/// own length.
pub proof fn lemma_literal_consumes_exactly(lits: Seq<GPat>, s: Seq<char>, i: int)
    requires
        0 <= i <= s.len(),
        all_literals(lits),
        eval_seq(lits, s, i).0,
    ensures
        eval_seq(lits, s, i).1 == i + lits.len(),
    decreases lits.len(),
{
    if lits.len() > 0 {
        assert(lits[0] matches GPat::Atom(Atom::Char(_)));
        let (ok0, j0) = eval(lits[0], s, i);
        let tail = lits.drop_first();
        assert(all_literals(tail)) by {
            assert(forall|k: int| 0 <= k < tail.len() ==> (#[trigger] tail[k]) == lits[k + 1]);
        }
        lemma_literal_consumes_exactly(tail, s, i + 1);
    }
}

/// A fully anchored literal sequence matches at the start of the input
/// exactly when the input equals the literals: `^`, literals, `$` means
/// "equals".
pub proof fn lemma_both_anchored_literals(lits: Seq<GPat>, s: Seq<char>)
    requires
        all_literals(lits),
    ensures
        eval_seq(
            seq![GPat::Anchor(Anchor::Start)] + lits + seq![GPat::Anchor(Anchor::End)],
            s,
            0,
        ).0 <==> (s.len() == lits.len() && (forall|t: int|
            0 <= t < lits.len() ==> s[t] == (#[trigger] lits[t])->Atom_0->Char_0)),
{
    lemma_eval_seq_concat(
        seq![GPat::Anchor(Anchor::Start)],
        lits + seq![GPat::Anchor(Anchor::End)],
        s,
        0,
    );
    lemma_eval_singleton(GPat::Anchor(Anchor::Start), s, 0);
    assert(seq![GPat::Anchor(Anchor::Start)] + lits + seq![GPat::Anchor(Anchor::End)]
        =~= seq![GPat::Anchor(Anchor::Start)] + (lits + seq![GPat::Anchor(Anchor::End)]));
    lemma_end_anchored_literals(lits, s, 0);
}


/// The state after `a + b` steps is the state after `b` steps from the state
/// after `a` steps.
pub proof fn lemma_scan_steps_add(pats: Seq<GPat>, s: Seq<char>, st: ScanState, a: nat, b: nat)
    ensures
        scan_steps(pats, s, st, a + b) == scan_steps(pats, s, scan_steps(pats, s, st, a), b),
    decreases b,
{
    if b > 0 {
        lemma_scan_steps_add(pats, s, st, a, (b - 1) as nat);
    }
}

/// Only one step count exits the scan first: an exit whose predecessors all
/// still scan is unique.
pub proof fn lemma_first_exit_unique(pats: Seq<GPat>, s: Seq<char>, st: ScanState, d1: nat, d2: nat)
    requires
        scan_steps(pats, s, st, d1).i >= s.len(),
        forall|e: nat| e < d1 ==> (#[trigger] scan_steps(pats, s, st, e)).i < s.len(),
        scan_steps(pats, s, st, d2).i >= s.len(),
        forall|e: nat| e < d2 ==> (#[trigger] scan_steps(pats, s, st, e)).i < s.len(),
    ensures
        d1 == d2,
{
    if d1 < d2 {
        assert(scan_steps(pats, s, st, d1).i < s.len());
    }
    if d2 < d1 {
        assert(scan_steps(pats, s, st, d2).i < s.len());
    }
}

/// The character a literal node stands for.
pub open spec fn lit_char(lits: Seq<GPat>, t: int) -> char {
    lits[t]->Atom_0->Char_0
}

/// Whether the first `k` literal characters appear at position `q` of `s`.
pub open spec fn prefix_match(lits: Seq<GPat>, s: Seq<char>, q: int, k: int) -> bool {
    forall|t: int| 0 <= t < k ==> s[q + t] == lit_char(lits, t)
}

/// Whether all the literal characters appear at position `q` of `s`: one
/// occurrence of the literal word there.
pub open spec fn lit_match_at(lits: Seq<GPat>, s: Seq<char>, q: int) -> bool {
    &&& 0 <= q
    &&& q + lits.len() <= s.len()
    &&& prefix_match(lits, s, q, lits.len() as int)
}

/// The leftmost non-overlapping occurrences of the literal word in `s` from
/// position `q` on: each occurrence is recorded as its full span and the
/// search resumes after it.
pub open spec fn lit_spans(lits: Seq<GPat>, s: Seq<char>, q: int) -> Seq<(int, int)>
    decreases s.len() - q,
{
    if lits.len() == 0 || q < 0 || q >= s.len() {
        Seq::empty()
    } else if lit_match_at(lits, s, q) {
        seq![(q, q + lits.len() as int)] + lit_spans(lits, s, q + lits.len() as int)
    } else {
        lit_spans(lits, s, q + 1)
    }
}

/// Past the last position an occurrence could start at, there are none.
proof fn lemma_lit_spans_empty_tail(lits: Seq<GPat>, s: Seq<char>, q: int)
    requires
        q > s.len() - lits.len(),
    ensures
        lit_spans(lits, s, q) == Seq::<(int, int)>::empty(),
    decreases s.len() - q,
{
    if !(lits.len() == 0 || q < 0 || q >= s.len()) {
        lemma_lit_spans_empty_tail(lits, s, q + 1);
    }
}

/// A closed scan state about to search from position `q`.
pub open spec fn closed_at(q: int, sp: Seq<(int, int)>) -> ScanState {
    ScanState { i: q, p: 0, start: None, origin: q, spans: sp }
}

/// An open scan state: the attempt that began at `q` has matched `k` nodes.
spec fn open_at(q: int, k: int, sp: Seq<(int, int)>) -> ScanState {
    ScanState { i: q + k, p: k, start: Some(q), origin: q, spans: sp }
}


/// The scan of a literal pattern from a closed state at `q`: it runs to the
/// end of the input and its finished span list grows by exactly the
/// occurrences from `q` on.
proof fn lemma_lit_scan(lits: Seq<GPat>, s: Seq<char>, q: int, sp: Seq<(int, int)>)
    requires
        all_literals(lits),
        lits.len() >= 1,
        0 <= q <= s.len(),
    ensures
        exists|d: nat|
            {
                &&& (#[trigger] scan_steps(lits, s, closed_at(q, sp), d)).i >= s.len()
                &&& (forall|e: nat|
                    e < d ==> (#[trigger] scan_steps(lits, s, closed_at(q, sp), e)).i < s.len())
                &&& scan_finish(lits, s, scan_steps(lits, s, closed_at(q, sp), d)) == sp + lit_spans(
                    lits,
                    s,
                    q,
                )
            },
    decreases s.len() - q, lits.len() + 1,
{
    let st = closed_at(q, sp);
    if q == s.len() {
        assert(lits[0] matches GPat::Atom(Atom::Char(_)));
        assert(scan_steps(lits, s, st, 0nat) == st);
        assert(scan_finish(lits, s, st) == sp);
        assert(sp + lit_spans(lits, s, q) =~= sp);
    } else if s[q] == lit_char(lits, 0) {
        assert(lits[0] matches GPat::Atom(Atom::Char(_)));
        assert(eval(lits[0], s, q) == (true, q + 1));
        assert(scan_step(lits, s, st) == open_at(q, 1, sp));
        lemma_lit_open(lits, s, q, 1, sp);
        let d2 = choose|d: nat|
            {
                &&& (#[trigger] scan_steps(lits, s, open_at(q, 1, sp), d)).i >= s.len()
                &&& (forall|e: nat|
                    e < d ==> (#[trigger] scan_steps(lits, s, open_at(q, 1, sp), e)).i < s.len())
                &&& scan_finish(lits, s, scan_steps(lits, s, open_at(q, 1, sp), d)) == sp + lit_spans(
                    lits,
                    s,
                    q,
                )
            };
        lemma_scan_steps_add(lits, s, st, 1, d2);
        assert(scan_steps(lits, s, st, 1nat) == open_at(q, 1, sp));
        assert(scan_steps(lits, s, st, (1 + d2) as nat) == scan_steps(lits, s, open_at(q, 1, sp), d2));
        assert forall|e: nat| e < 1 + d2 implies (#[trigger] scan_steps(lits, s, st, e)).i
            < s.len() by {
            if e > 0 {
                lemma_scan_steps_add(lits, s, st, 1, (e - 1) as nat);
            }
        }
    } else {
        assert(lits[0] matches GPat::Atom(Atom::Char(_)));
        assert(eval(lits[0], s, q) == (false, q));
        assert(scan_step(lits, s, st) == closed_at(q + 1, sp));
        assert(!lit_match_at(lits, s, q)) by {
            if lit_match_at(lits, s, q) {
                assert(s[q + 0] == lit_char(lits, 0));
            }
        }
        lemma_lit_scan(lits, s, q + 1, sp);
        let d2 = choose|d: nat|
            {
                &&& (#[trigger] scan_steps(lits, s, closed_at(q + 1, sp), d)).i >= s.len()
                &&& (forall|e: nat|
                    e < d ==> (#[trigger] scan_steps(lits, s, closed_at(q + 1, sp), e)).i < s.len())
                &&& scan_finish(lits, s, scan_steps(lits, s, closed_at(q + 1, sp), d)) == sp + lit_spans(
                    lits,
                    s,
                    q + 1,
                )
            };
        lemma_scan_steps_add(lits, s, st, 1, d2);
        assert(scan_steps(lits, s, st, 1nat) == closed_at(q + 1, sp));
        assert(scan_steps(lits, s, st, (1 + d2) as nat) == scan_steps(
            lits,
            s,
            closed_at(q + 1, sp),
            d2,
        ));
        assert forall|e: nat| e < 1 + d2 implies (#[trigger] scan_steps(lits, s, st, e)).i
            < s.len() by {
            if e > 0 {
                lemma_scan_steps_add(lits, s, st, 1, (e - 1) as nat);
            }
        }
    }
}

/// The scan of a literal pattern from an open attempt that began at `q` and
/// has matched `k` nodes: however the attempt ends, the finished span list
/// grows by exactly the occurrences from `q` on.
proof fn lemma_lit_open(lits: Seq<GPat>, s: Seq<char>, q: int, k: int, sp: Seq<(int, int)>)
    requires
        all_literals(lits),
        lits.len() >= 1,
        1 <= k <= lits.len(),
        0 <= q,
        q + k <= s.len(),
        prefix_match(lits, s, q, k),
    ensures
        exists|d: nat|
            {
                &&& (#[trigger] scan_steps(lits, s, open_at(q, k, sp), d)).i >= s.len()
                &&& (forall|e: nat|
                    e < d ==> (#[trigger] scan_steps(lits, s, open_at(q, k, sp), e)).i < s.len())
                &&& scan_finish(lits, s, scan_steps(lits, s, open_at(q, k, sp), d)) == sp + lit_spans(
                    lits,
                    s,
                    q,
                )
            },
    decreases s.len() - q, lits.len() - k,
{
    let st = open_at(q, k, sp);
    let ll = lits.len() as int;
    if k == ll {
        assert(lit_match_at(lits, s, q));
        if q + ll == s.len() {
            assert(scan_steps(lits, s, st, 0nat) == st);
            assert(scan_finish(lits, s, st) == sp.push((q, q + ll)));
            assert(lit_spans(lits, s, q + ll) == Seq::<(int, int)>::empty());
            assert(sp + lit_spans(lits, s, q) =~= sp.push((q, q + ll)));
        } else {
            let sp2 = sp.push((q, q + ll));
            assert(scan_step(lits, s, st) == closed_at(q + ll, sp2));
            lemma_lit_scan(lits, s, q + ll, sp2);
            let d2 = choose|d: nat|
                {
                    &&& (#[trigger] scan_steps(lits, s, closed_at(q + ll, sp2), d)).i >= s.len()
                    &&& (forall|e: nat|
                        e < d ==> (#[trigger] scan_steps(lits, s, closed_at(q + ll, sp2), e)).i
                            < s.len())
                    &&& scan_finish(lits, s, scan_steps(lits, s, closed_at(q + ll, sp2), d)) == sp2
                        + lit_spans(lits, s, q + ll)
                };
            lemma_scan_steps_add(lits, s, st, 1, d2);
            assert(scan_steps(lits, s, st, 1nat) == closed_at(q + ll, sp2));
            assert(scan_steps(lits, s, st, (1 + d2) as nat) == scan_steps(
                lits,
                s,
                closed_at(q + ll, sp2),
                d2,
            ));
            assert(sp2 + lit_spans(lits, s, q + ll) =~= sp + lit_spans(lits, s, q));
            assert forall|e: nat| e < 1 + d2 implies (#[trigger] scan_steps(lits, s, st, e)).i
                < s.len() by {
                if e > 0 {
                    lemma_scan_steps_add(lits, s, st, 1, (e - 1) as nat);
                }
            }
        }
    } else {
        if q + k == s.len() {
            assert(scan_steps(lits, s, st, 0nat) == st);
            assert(lits[k] matches GPat::Atom(Atom::Char(_)));
            assert(scan_finish(lits, s, st) == sp);
            lemma_lit_spans_empty_tail(lits, s, q);
            assert(sp + lit_spans(lits, s, q) =~= sp);
        } else if s[q + k] == lit_char(lits, k) {
            assert(lits[k] matches GPat::Atom(Atom::Char(_)));
            assert(eval(lits[k], s, q + k) == (true, q + k + 1));
            assert(scan_step(lits, s, st) == open_at(q, k + 1, sp));
            lemma_lit_open(lits, s, q, k + 1, sp);
            let d2 = choose|d: nat|
                {
                    &&& (#[trigger] scan_steps(lits, s, open_at(q, k + 1, sp), d)).i >= s.len()
                    &&& (forall|e: nat|
                        e < d ==> (#[trigger] scan_steps(lits, s, open_at(q, k + 1, sp), e)).i
                            < s.len())
                    &&& scan_finish(lits, s, scan_steps(lits, s, open_at(q, k + 1, sp), d)) == sp
                        + lit_spans(lits, s, q)
                };
            lemma_scan_steps_add(lits, s, st, 1, d2);
            assert(scan_steps(lits, s, st, 1nat) == open_at(q, k + 1, sp));
            assert(scan_steps(lits, s, st, (1 + d2) as nat) == scan_steps(
                lits,
                s,
                open_at(q, k + 1, sp),
                d2,
            ));
            assert forall|e: nat| e < 1 + d2 implies (#[trigger] scan_steps(lits, s, st, e)).i
                < s.len() by {
                if e > 0 {
                    lemma_scan_steps_add(lits, s, st, 1, (e - 1) as nat);
                }
            }
        } else {
            assert(lits[k] matches GPat::Atom(Atom::Char(_)));
            assert(eval(lits[k], s, q + k) == (false, q + k));
            assert(scan_step(lits, s, st) == closed_at(q + 1, sp));
            assert(!lit_match_at(lits, s, q)) by {
                if lit_match_at(lits, s, q) {
                    assert(s[q + k] == lit_char(lits, k));
                }
            }
            lemma_lit_scan(lits, s, q + 1, sp);
            let d2 = choose|d: nat|
                {
                    &&& (#[trigger] scan_steps(lits, s, closed_at(q + 1, sp), d)).i >= s.len()
                    &&& (forall|e: nat|
                        e < d ==> (#[trigger] scan_steps(lits, s, closed_at(q + 1, sp), e)).i < s.len())
                    &&& scan_finish(lits, s, scan_steps(lits, s, closed_at(q + 1, sp), d)) == sp
                        + lit_spans(lits, s, q + 1)
                };
            lemma_scan_steps_add(lits, s, st, 1, d2);
            assert(scan_steps(lits, s, st, 1nat) == closed_at(q + 1, sp));
            assert(scan_steps(lits, s, st, (1 + d2) as nat) == scan_steps(
                lits,
                s,
                closed_at(q + 1, sp),
                d2,
            ));
            assert forall|e: nat| e < 1 + d2 implies (#[trigger] scan_steps(lits, s, st, e)).i
                < s.len() by {
                if e > 0 {
                    lemma_scan_steps_add(lits, s, st, 1, (e - 1) as nat);
                }
            }
        }
    }
}


/// A literal word occurs somewhere at or after `q` exactly when the
/// occurrence list from `q` is non-empty.
pub proof fn lemma_lit_spans_cover(lits: Seq<GPat>, s: Seq<char>, q: int)
    requires
        lits.len() >= 1,
        0 <= q,
    ensures
        lit_spans(lits, s, q).len() > 0 <==> exists|q2: int| q2 >= q && lit_match_at(lits, s, q2),
    decreases s.len() - q,
{
    let ll = lits.len() as int;
    if q >= s.len() {
        if exists|q2: int| q2 >= q && lit_match_at(lits, s, q2) {
            let q2 = choose|q2: int| q2 >= q && lit_match_at(lits, s, q2);
            assert(q2 + ll <= s.len());
            assert(false);
        }
    } else if lit_match_at(lits, s, q) {
        assert(lit_spans(lits, s, q).len() > 0);
    } else {
        lemma_lit_spans_cover(lits, s, q + 1);
        if exists|q2: int| q2 >= q && lit_match_at(lits, s, q2) {
            let q2 = choose|q2: int| q2 >= q && lit_match_at(lits, s, q2);
            assert(q2 >= q + 1);
        }
    }
}

/// Matching a pattern of literal-character nodes only is plain substring
/// search: whatever step count first exhausts the input, the finished span
/// list is exactly the leftmost non-overlapping occurrences of the literal
/// word, so it is non-empty exactly when the input contains the word.
pub proof fn lemma_literal_pattern_spans(lits: Seq<GPat>, s: Seq<char>)
    requires
        lits.len() >= 1,
        all_literals(lits),
    ensures
        forall|d: nat|
            ((#[trigger] scan_steps(lits, s, closed_at(0, Seq::empty()), d)).i >= s.len() && (forall|
                e: nat,
            |
                e < d ==> (#[trigger] scan_steps(lits, s, closed_at(0, Seq::empty()), e)).i < s.len()))
                ==> scan_finish(lits, s, scan_steps(lits, s, closed_at(0, Seq::empty()), d)) == lit_spans(
                lits,
                s,
                0,
            ),
{
    lemma_lit_scan(lits, s, 0, Seq::empty());
    let d0 = choose|d: nat|
        {
            &&& (#[trigger] scan_steps(lits, s, closed_at(0, Seq::empty()), d)).i >= s.len()
            &&& (forall|e: nat|
                e < d ==> (#[trigger] scan_steps(lits, s, closed_at(0, Seq::empty()), e)).i < s.len())
            &&& scan_finish(lits, s, scan_steps(lits, s, closed_at(0, Seq::empty()), d))
                == Seq::<(int, int)>::empty() + lit_spans(lits, s, 0)
        };
    assert(Seq::<(int, int)>::empty() + lit_spans(lits, s, 0) =~= lit_spans(lits, s, 0));
    assert forall|d: nat|
        ((#[trigger] scan_steps(lits, s, closed_at(0, Seq::empty()), d)).i >= s.len() && (forall|e: nat|
            e < d ==> (#[trigger] scan_steps(lits, s, closed_at(0, Seq::empty()), e)).i < s.len()))
            implies scan_finish(lits, s, scan_steps(lits, s, closed_at(0, Seq::empty()), d))
        == lit_spans(lits, s, 0) by {
        lemma_first_exit_unique(lits, s, closed_at(0, Seq::empty()), d, d0);
    }
}


/// A start-anchored pattern fails instantly at every position after the
/// first: from any later closed state the scan just walks to the end of the
/// input and records nothing more.
proof fn lemma_start_tail(pats: Seq<GPat>, s: Seq<char>, q: int, sp: Seq<(int, int)>)
    requires
        pats.len() >= 1,
        pats[0] == GPat::Anchor(Anchor::Start),
        1 <= q <= s.len(),
    ensures
        exists|d: nat|
            {
                &&& (#[trigger] scan_steps(pats, s, closed_at(q, sp), d)).i >= s.len()
                &&& (forall|e: nat|
                    e < d ==> (#[trigger] scan_steps(pats, s, closed_at(q, sp), e)).i < s.len())
                &&& scan_finish(pats, s, scan_steps(pats, s, closed_at(q, sp), d)) == sp
            },
    decreases s.len() - q,
{
    let st = closed_at(q, sp);
    if q == s.len() {
        assert(scan_steps(pats, s, st, 0nat) == st);
        assert(scan_finish(pats, s, st) == sp);
    } else {
        assert(eval(pats[0], s, q) == (false, q));
        assert(scan_step(pats, s, st) == closed_at(q + 1, sp));
        lemma_start_tail(pats, s, q + 1, sp);
        let d2 = choose|d: nat|
            {
                &&& (#[trigger] scan_steps(pats, s, closed_at(q + 1, sp), d)).i >= s.len()
                &&& (forall|e: nat|
                    e < d ==> (#[trigger] scan_steps(pats, s, closed_at(q + 1, sp), e)).i < s.len())
                &&& scan_finish(pats, s, scan_steps(pats, s, closed_at(q + 1, sp), d)) == sp
            };
        lemma_scan_steps_add(pats, s, st, 1, d2);
        assert(scan_steps(pats, s, st, 1nat) == closed_at(q + 1, sp));
        assert(scan_steps(pats, s, st, (1 + d2) as nat) == scan_steps(
            pats,
            s,
            closed_at(q + 1, sp),
            d2,
        ));
        assert forall|e: nat| e < 1 + d2 implies (#[trigger] scan_steps(pats, s, st, e)).i
            < s.len() by {
            if e > 0 {
                lemma_scan_steps_add(pats, s, st, 1, (e - 1) as nat);
            }
        }
    }
}

/// The start-anchored pattern over the literal word.
pub open spec fn start_anchored(lits: Seq<GPat>) -> Seq<GPat> {
    seq![GPat::Anchor(Anchor::Start)] + lits
}

/// An open attempt of a start-anchored pattern: the anchor held at position
/// 0 and `t` literal nodes have matched.
spec fn anchored_open_at(t: int, sp: Seq<(int, int)>) -> ScanState {
    ScanState { i: t, p: t + 1, start: Some(0), origin: 0, spans: sp }
}

/// The scan of a start-anchored literal pattern from an open attempt that
/// has matched `t` literals: it records the prefix span exactly when the
/// whole word begins the input.
proof fn lemma_a_open(lits: Seq<GPat>, s: Seq<char>, t: int, sp: Seq<(int, int)>)
    requires
        all_literals(lits),
        lits.len() >= 1,
        0 <= t <= lits.len(),
        t <= s.len(),
        prefix_match(lits, s, 0, t),
    ensures
        exists|d: nat|
            {
                &&& (#[trigger] scan_steps(start_anchored(lits), s, anchored_open_at(t, sp), d)).i >= s.len()
                &&& (forall|e: nat|
                    e < d ==> (#[trigger] scan_steps(start_anchored(lits), s, anchored_open_at(t, sp), e)).i
                        < s.len())
                &&& scan_finish(
                    start_anchored(lits),
                    s,
                    scan_steps(start_anchored(lits), s, anchored_open_at(t, sp), d),
                ) == if lit_match_at(lits, s, 0) {
                    sp.push((0, lits.len() as int))
                } else {
                    sp
                }
            },
    decreases lits.len() - t,
{
    let pats = start_anchored(lits);
    let ll = lits.len() as int;
    let st = anchored_open_at(t, sp);
    assert(pats.len() == ll + 1);
    assert(pats[0] == GPat::Anchor(Anchor::Start));
    if t == ll {
        assert(lit_match_at(lits, s, 0));
        if ll == s.len() {
            assert(scan_steps(pats, s, st, 0nat) == st);
            assert(scan_finish(pats, s, st) == sp.push((0, ll)));
        } else {
            let sp2 = sp.push((0, ll));
            assert(scan_step(pats, s, st) == closed_at(ll, sp2));
            lemma_start_tail(pats, s, ll, sp2);
            let d2 = choose|d: nat|
                {
                    &&& (#[trigger] scan_steps(pats, s, closed_at(ll, sp2), d)).i >= s.len()
                    &&& (forall|e: nat|
                        e < d ==> (#[trigger] scan_steps(pats, s, closed_at(ll, sp2), e)).i < s.len())
                    &&& scan_finish(pats, s, scan_steps(pats, s, closed_at(ll, sp2), d)) == sp2
                };
            lemma_scan_steps_add(pats, s, st, 1, d2);
            assert(scan_steps(pats, s, st, 1nat) == closed_at(ll, sp2));
            assert(scan_steps(pats, s, st, (1 + d2) as nat) == scan_steps(
                pats,
                s,
                closed_at(ll, sp2),
                d2,
            ));
            assert forall|e: nat| e < 1 + d2 implies (#[trigger] scan_steps(pats, s, st, e)).i
                < s.len() by {
                if e > 0 {
                    lemma_scan_steps_add(pats, s, st, 1, (e - 1) as nat);
                }
            }
        }
    } else {
        assert(pats[t + 1] == lits[t]);
        assert(lits[t] matches GPat::Atom(Atom::Char(_)));
        if t == s.len() {
            assert(scan_steps(pats, s, st, 0nat) == st);
            assert(scan_finish(pats, s, st) == sp);
            assert(!lit_match_at(lits, s, 0));
        } else if s[t] == lit_char(lits, t) {
            assert(eval(pats[t + 1], s, t) == (true, t + 1));
            assert(scan_step(pats, s, st) == anchored_open_at(t + 1, sp));
            lemma_a_open(lits, s, t + 1, sp);
            let tgt = if lit_match_at(lits, s, 0) {
                sp.push((0, ll))
            } else {
                sp
            };
            let d2 = choose|d: nat|
                {
                    &&& (#[trigger] scan_steps(pats, s, anchored_open_at(t + 1, sp), d)).i >= s.len()
                    &&& (forall|e: nat|
                        e < d ==> (#[trigger] scan_steps(pats, s, anchored_open_at(t + 1, sp), e)).i
                            < s.len())
                    &&& scan_finish(pats, s, scan_steps(pats, s, anchored_open_at(t + 1, sp), d)) == tgt
                };
            lemma_scan_steps_add(pats, s, st, 1, d2);
            assert(scan_steps(pats, s, st, 1nat) == anchored_open_at(t + 1, sp));
            assert(scan_steps(pats, s, st, (1 + d2) as nat) == scan_steps(
                pats,
                s,
                anchored_open_at(t + 1, sp),
                d2,
            ));
            assert forall|e: nat| e < 1 + d2 implies (#[trigger] scan_steps(pats, s, st, e)).i
                < s.len() by {
                if e > 0 {
                    lemma_scan_steps_add(pats, s, st, 1, (e - 1) as nat);
                }
            }
        } else {
            assert(eval(pats[t + 1], s, t) == (false, t));
            assert(scan_step(pats, s, st) == closed_at(1, sp));
            assert(!lit_match_at(lits, s, 0)) by {
                if lit_match_at(lits, s, 0) {
                    assert(s[0 + t] == lit_char(lits, t));
                }
            }
            lemma_start_tail(pats, s, 1, sp);
            let d2 = choose|d: nat|
                {
                    &&& (#[trigger] scan_steps(pats, s, closed_at(1, sp), d)).i >= s.len()
                    &&& (forall|e: nat|
                        e < d ==> (#[trigger] scan_steps(pats, s, closed_at(1, sp), e)).i < s.len())
                    &&& scan_finish(pats, s, scan_steps(pats, s, closed_at(1, sp), d)) == sp
                };
            lemma_scan_steps_add(pats, s, st, 1, d2);
            assert(scan_steps(pats, s, st, 1nat) == closed_at(1, sp));
            assert(scan_steps(pats, s, st, (1 + d2) as nat) == scan_steps(pats, s, closed_at(1, sp), d2));
            assert forall|e: nat| e < 1 + d2 implies (#[trigger] scan_steps(pats, s, st, e)).i
                < s.len() by {
                if e > 0 {
                    lemma_scan_steps_add(pats, s, st, 1, (e - 1) as nat);
                }
            }
        }
    }
}

/// A start-anchored literal pattern matches exactly when the input begins
/// with the literal word: whatever step count first exhausts the input, the
/// finished span list is the single prefix span when the word begins the
/// input, and empty otherwise.
pub proof fn lemma_start_anchored_pattern_spans(lits: Seq<GPat>, s: Seq<char>)
    requires
        lits.len() >= 1,
        all_literals(lits),
    ensures
        forall|d: nat|
            ((#[trigger] scan_steps(start_anchored(lits), s, closed_at(0, Seq::empty()), d)).i >= s.len()
                && (forall|e: nat|
                e < d ==> (#[trigger] scan_steps(start_anchored(lits), s, closed_at(0, Seq::empty()), e)).i
                    < s.len())) ==> scan_finish(
                start_anchored(lits),
                s,
                scan_steps(start_anchored(lits), s, closed_at(0, Seq::empty()), d),
            ) == if lit_match_at(lits, s, 0) {
                seq![(0int, lits.len() as int)]
            } else {
                Seq::<(int, int)>::empty()
            },
{
    let pats = start_anchored(lits);
    let sp0 = Seq::<(int, int)>::empty();
    let st = closed_at(0, sp0);
    let tgt = if lit_match_at(lits, s, 0) {
        seq![(0int, lits.len() as int)]
    } else {
        Seq::<(int, int)>::empty()
    };
    assert(pats[0] == GPat::Anchor(Anchor::Start));
    let d0: nat;
    if s.len() == 0 {
        assert(scan_steps(pats, s, st, 0nat) == st);
        assert(scan_finish(pats, s, st) == sp0);
        assert(!lit_match_at(lits, s, 0));
        d0 = 0;
    } else {
        assert(eval(pats[0], s, 0) == (true, 0int));
        assert(scan_step(pats, s, st) == anchored_open_at(0, sp0));
        lemma_a_open(lits, s, 0, sp0);
        let d2 = choose|d: nat|
            {
                &&& (#[trigger] scan_steps(pats, s, anchored_open_at(0, sp0), d)).i >= s.len()
                &&& (forall|e: nat|
                    e < d ==> (#[trigger] scan_steps(pats, s, anchored_open_at(0, sp0), e)).i < s.len())
                &&& scan_finish(pats, s, scan_steps(pats, s, anchored_open_at(0, sp0), d)) == if lit_match_at(
                    lits,
                    s,
                    0,
                ) {
                    sp0.push((0, lits.len() as int))
                } else {
                    sp0
                }
            };
        lemma_scan_steps_add(pats, s, st, 1, d2);
        assert(scan_steps(pats, s, st, 1nat) == anchored_open_at(0, sp0));
        assert(scan_steps(pats, s, st, (1 + d2) as nat) == scan_steps(pats, s, anchored_open_at(0, sp0), d2));
        assert forall|e: nat| e < 1 + d2 implies (#[trigger] scan_steps(pats, s, st, e)).i
            < s.len() by {
            if e > 0 {
                lemma_scan_steps_add(pats, s, st, 1, (e - 1) as nat);
            }
        }
        assert(sp0.push((0, lits.len() as int)) =~= seq![(0int, lits.len() as int)]);
        d0 = (1 + d2) as nat;
    }
    assert(scan_finish(pats, s, scan_steps(pats, s, st, d0)) == tgt);
    assert forall|d: nat|
        ((#[trigger] scan_steps(pats, s, st, d)).i >= s.len() && (forall|e: nat|
            e < d ==> (#[trigger] scan_steps(pats, s, st, e)).i < s.len())) implies scan_finish(
        pats,
        s,
        scan_steps(pats, s, st, d),
    ) == tgt by {
        lemma_first_exit_unique(pats, s, st, d, d0);
    }
}


/// The fully anchored pattern over the literal word.
pub open spec fn both_anchored(lits: Seq<GPat>) -> Seq<GPat> {
    seq![GPat::Anchor(Anchor::Start)] + lits + seq![GPat::Anchor(Anchor::End)]
}

/// The scan of a fully anchored literal pattern from an open attempt that
/// has matched `t` literals: it records the whole-line span exactly when the
/// input equals the word.
proof fn lemma_b_open(lits: Seq<GPat>, s: Seq<char>, t: int, sp: Seq<(int, int)>)
    requires
        all_literals(lits),
        lits.len() >= 1,
        0 <= t <= lits.len(),
        t <= s.len(),
        prefix_match(lits, s, 0, t),
    ensures
        exists|d: nat|
            {
                &&& (#[trigger] scan_steps(both_anchored(lits), s, anchored_open_at(t, sp), d)).i >= s.len()
                &&& (forall|e: nat|
                    e < d ==> (#[trigger] scan_steps(both_anchored(lits), s, anchored_open_at(t, sp), e)).i
                        < s.len())
                &&& scan_finish(
                    both_anchored(lits),
                    s,
                    scan_steps(both_anchored(lits), s, anchored_open_at(t, sp), d),
                ) == if s.len() == lits.len() && lit_match_at(lits, s, 0) {
                    sp.push((0, lits.len() as int))
                } else {
                    sp
                }
            },
    decreases lits.len() - t,
{
    let pats = both_anchored(lits);
    let ll = lits.len() as int;
    let st = anchored_open_at(t, sp);
    assert(pats.len() == ll + 2);
    assert(pats[0] == GPat::Anchor(Anchor::Start));
    assert(pats[ll + 1] == GPat::Anchor(Anchor::End));
    if t == ll {
        assert(lit_match_at(lits, s, 0));
        if ll == s.len() {
            assert(eval(pats[ll + 1], s, ll) == (true, ll));
            let st2 = ScanState { i: ll, p: ll + 2, start: Some(0), origin: 0, spans: sp };
            assert(scan_step(pats, s, st) == st2);
            assert(scan_steps(pats, s, st, 1nat) == st2);
            assert(scan_finish(pats, s, st2) == sp.push((0, ll)));
            assert(scan_steps(pats, s, st, 0nat) == st);
        } else {
            assert(eval(pats[ll + 1], s, ll) == (false, ll));
            assert(scan_step(pats, s, st) == closed_at(1, sp));
            lemma_start_tail(pats, s, 1, sp);
            let d2 = choose|d: nat|
                {
                    &&& (#[trigger] scan_steps(pats, s, closed_at(1, sp), d)).i >= s.len()
                    &&& (forall|e: nat|
                        e < d ==> (#[trigger] scan_steps(pats, s, closed_at(1, sp), e)).i < s.len())
                    &&& scan_finish(pats, s, scan_steps(pats, s, closed_at(1, sp), d)) == sp
                };
            lemma_scan_steps_add(pats, s, st, 1, d2);
            assert(scan_steps(pats, s, st, 1nat) == closed_at(1, sp));
            assert(scan_steps(pats, s, st, (1 + d2) as nat) == scan_steps(pats, s, closed_at(1, sp), d2));
            assert forall|e: nat| e < 1 + d2 implies (#[trigger] scan_steps(pats, s, st, e)).i
                < s.len() by {
                if e > 0 {
                    lemma_scan_steps_add(pats, s, st, 1, (e - 1) as nat);
                }
            }
        }
    } else {
        assert(pats[t + 1] == lits[t]);
        assert(lits[t] matches GPat::Atom(Atom::Char(_)));
        if t == s.len() {
            assert(scan_steps(pats, s, st, 0nat) == st);
            assert(scan_finish(pats, s, st) == sp);
            assert(s.len() != ll);
        } else if s[t] == lit_char(lits, t) {
            assert(eval(pats[t + 1], s, t) == (true, t + 1));
            assert(scan_step(pats, s, st) == anchored_open_at(t + 1, sp));
            lemma_b_open(lits, s, t + 1, sp);
            let tgt = if s.len() == ll && lit_match_at(lits, s, 0) {
                sp.push((0, ll))
            } else {
                sp
            };
            let d2 = choose|d: nat|
                {
                    &&& (#[trigger] scan_steps(pats, s, anchored_open_at(t + 1, sp), d)).i >= s.len()
                    &&& (forall|e: nat|
                        e < d ==> (#[trigger] scan_steps(pats, s, anchored_open_at(t + 1, sp), e)).i
                            < s.len())
                    &&& scan_finish(pats, s, scan_steps(pats, s, anchored_open_at(t + 1, sp), d)) == tgt
                };
            lemma_scan_steps_add(pats, s, st, 1, d2);
            assert(scan_steps(pats, s, st, 1nat) == anchored_open_at(t + 1, sp));
            assert(scan_steps(pats, s, st, (1 + d2) as nat) == scan_steps(
                pats,
                s,
                anchored_open_at(t + 1, sp),
                d2,
            ));
            assert forall|e: nat| e < 1 + d2 implies (#[trigger] scan_steps(pats, s, st, e)).i
                < s.len() by {
                if e > 0 {
                    lemma_scan_steps_add(pats, s, st, 1, (e - 1) as nat);
                }
            }
        } else {
            assert(eval(pats[t + 1], s, t) == (false, t));
            assert(scan_step(pats, s, st) == closed_at(1, sp));
            assert(!lit_match_at(lits, s, 0)) by {
                if lit_match_at(lits, s, 0) {
                    assert(s[0 + t] == lit_char(lits, t));
                }
            }
            lemma_start_tail(pats, s, 1, sp);
            let d2 = choose|d: nat|
                {
                    &&& (#[trigger] scan_steps(pats, s, closed_at(1, sp), d)).i >= s.len()
                    &&& (forall|e: nat|
                        e < d ==> (#[trigger] scan_steps(pats, s, closed_at(1, sp), e)).i < s.len())
                    &&& scan_finish(pats, s, scan_steps(pats, s, closed_at(1, sp), d)) == sp
                };
            lemma_scan_steps_add(pats, s, st, 1, d2);
            assert(scan_steps(pats, s, st, 1nat) == closed_at(1, sp));
            assert(scan_steps(pats, s, st, (1 + d2) as nat) == scan_steps(pats, s, closed_at(1, sp), d2));
            assert forall|e: nat| e < 1 + d2 implies (#[trigger] scan_steps(pats, s, st, e)).i
                < s.len() by {
                if e > 0 {
                    lemma_scan_steps_add(pats, s, st, 1, (e - 1) as nat);
                }
            }
        }
    }
}

/// A fully anchored literal pattern matches exactly when the input equals
/// the literal word: whatever step count first exhausts the input, the
/// finished span list is the single whole-line span when the input is the
/// word, and empty otherwise.
pub proof fn lemma_both_anchored_pattern_spans(lits: Seq<GPat>, s: Seq<char>)
    requires
        lits.len() >= 1,
        all_literals(lits),
    ensures
        forall|d: nat|
            ((#[trigger] scan_steps(both_anchored(lits), s, closed_at(0, Seq::empty()), d)).i >= s.len()
                && (forall|e: nat|
                e < d ==> (#[trigger] scan_steps(both_anchored(lits), s, closed_at(0, Seq::empty()), e)).i
                    < s.len())) ==> scan_finish(
                both_anchored(lits),
                s,
                scan_steps(both_anchored(lits), s, closed_at(0, Seq::empty()), d),
            ) == if s.len() == lits.len() && lit_match_at(lits, s, 0) {
                seq![(0int, lits.len() as int)]
            } else {
                Seq::<(int, int)>::empty()
            },
{
    let pats = both_anchored(lits);
    let sp0 = Seq::<(int, int)>::empty();
    let st = closed_at(0, sp0);
    let tgt = if s.len() == lits.len() && lit_match_at(lits, s, 0) {
        seq![(0int, lits.len() as int)]
    } else {
        Seq::<(int, int)>::empty()
    };
    assert(pats[0] == GPat::Anchor(Anchor::Start));
    let d0: nat;
    if s.len() == 0 {
        assert(scan_steps(pats, s, st, 0nat) == st);
        assert(scan_finish(pats, s, st) == sp0);
        d0 = 0;
    } else {
        assert(eval(pats[0], s, 0) == (true, 0int));
        assert(scan_step(pats, s, st) == anchored_open_at(0, sp0));
        lemma_b_open(lits, s, 0, sp0);
        let d2 = choose|d: nat|
            {
                &&& (#[trigger] scan_steps(pats, s, anchored_open_at(0, sp0), d)).i >= s.len()
                &&& (forall|e: nat|
                    e < d ==> (#[trigger] scan_steps(pats, s, anchored_open_at(0, sp0), e)).i < s.len())
                &&& scan_finish(pats, s, scan_steps(pats, s, anchored_open_at(0, sp0), d)) == if s.len()
                    == lits.len() && lit_match_at(lits, s, 0) {
                    sp0.push((0, lits.len() as int))
                } else {
                    sp0
                }
            };
        lemma_scan_steps_add(pats, s, st, 1, d2);
        assert(scan_steps(pats, s, st, 1nat) == anchored_open_at(0, sp0));
        assert(scan_steps(pats, s, st, (1 + d2) as nat) == scan_steps(pats, s, anchored_open_at(0, sp0), d2));
        assert forall|e: nat| e < 1 + d2 implies (#[trigger] scan_steps(pats, s, st, e)).i
            < s.len() by {
            if e > 0 {
                lemma_scan_steps_add(pats, s, st, 1, (e - 1) as nat);
            }
        }
        assert(sp0.push((0, lits.len() as int)) =~= seq![(0int, lits.len() as int)]);
        d0 = (1 + d2) as nat;
    }
    assert(scan_finish(pats, s, scan_steps(pats, s, st, d0)) == tgt);
    assert forall|d: nat|
        ((#[trigger] scan_steps(pats, s, st, d)).i >= s.len() && (forall|e: nat|
            e < d ==> (#[trigger] scan_steps(pats, s, st, e)).i < s.len())) implies scan_finish(
        pats,
        s,
        scan_steps(pats, s, st, d),
    ) == tgt by {
        lemma_first_exit_unique(pats, s, st, d, d0);
    }
}


/// The end-anchored pattern over the literal word.
pub open spec fn end_anchored(lits: Seq<GPat>) -> Seq<GPat> {
    lits + seq![GPat::Anchor(Anchor::End)]
}

/// The single span an end-anchored literal pattern can record once the scan
/// has reached position `q`: the word at the very end of the input, provided
/// its position was not already passed.
pub open spec fn end_target(lits: Seq<GPat>, s: Seq<char>, q: int) -> Seq<(int, int)> {
    if s.len() >= lits.len() && q <= s.len() - lits.len() && lit_match_at(
        lits,
        s,
        s.len() - lits.len(),
    ) {
        seq![(s.len() - lits.len(), s.len() as int)]
    } else {
        Seq::<(int, int)>::empty()
    }
}

/// The scan of an end-anchored literal pattern from a closed state at `q`.
proof fn lemma_e_scan(lits: Seq<GPat>, s: Seq<char>, q: int, sp: Seq<(int, int)>)
    requires
        all_literals(lits),
        lits.len() >= 1,
        0 <= q <= s.len(),
    ensures
        exists|d: nat|
            {
                &&& (#[trigger] scan_steps(end_anchored(lits), s, closed_at(q, sp), d)).i >= s.len()
                &&& (forall|e: nat|
                    e < d ==> (#[trigger] scan_steps(end_anchored(lits), s, closed_at(q, sp), e)).i
                        < s.len())
                &&& scan_finish(
                    end_anchored(lits),
                    s,
                    scan_steps(end_anchored(lits), s, closed_at(q, sp), d),
                ) == sp + end_target(lits, s, q)
            },
    decreases s.len() - q, lits.len() + 1,
{
    let pats = end_anchored(lits);
    let ll = lits.len() as int;
    let st = closed_at(q, sp);
    assert(pats.len() == ll + 1);
    assert(pats[0] == lits[0]);
    assert(lits[0] matches GPat::Atom(Atom::Char(_)));
    if q == s.len() {
        assert(scan_steps(pats, s, st, 0nat) == st);
        assert(scan_finish(pats, s, st) == sp);
        assert(sp + end_target(lits, s, q) =~= sp);
    } else if s[q] == lit_char(lits, 0) {
        assert(eval(pats[0], s, q) == (true, q + 1));
        assert(scan_step(pats, s, st) == open_at(q, 1, sp));
        lemma_e_open(lits, s, q, 1, sp);
        let d2 = choose|d: nat|
            {
                &&& (#[trigger] scan_steps(end_anchored(lits), s, open_at(q, 1, sp), d)).i >= s.len()
                &&& (forall|e: nat|
                    e < d ==> (#[trigger] scan_steps(end_anchored(lits), s, open_at(q, 1, sp), e)).i
                        < s.len())
                &&& scan_finish(
                    end_anchored(lits),
                    s,
                    scan_steps(end_anchored(lits), s, open_at(q, 1, sp), d),
                ) == sp + end_target(lits, s, q)
            };
        lemma_scan_steps_add(pats, s, st, 1, d2);
        assert(scan_steps(pats, s, st, 1nat) == open_at(q, 1, sp));
        assert(scan_steps(pats, s, st, (1 + d2) as nat) == scan_steps(pats, s, open_at(q, 1, sp), d2));
        assert forall|e: nat| e < 1 + d2 implies (#[trigger] scan_steps(pats, s, st, e)).i
            < s.len() by {
            if e > 0 {
                lemma_scan_steps_add(pats, s, st, 1, (e - 1) as nat);
            }
        }
    } else {
        assert(eval(pats[0], s, q) == (false, q));
        assert(scan_step(pats, s, st) == closed_at(q + 1, sp));
        assert(end_target(lits, s, q) == end_target(lits, s, q + 1)) by {
            if s.len() >= ll && q == s.len() - ll {
                assert(!lit_match_at(lits, s, q)) by {
                    if lit_match_at(lits, s, q) {
                        assert(s[q + 0] == lit_char(lits, 0));
                    }
                }
            }
        }
        lemma_e_scan(lits, s, q + 1, sp);
        let d2 = choose|d: nat|
            {
                &&& (#[trigger] scan_steps(end_anchored(lits), s, closed_at(q + 1, sp), d)).i >= s.len()
                &&& (forall|e: nat|
                    e < d ==> (#[trigger] scan_steps(end_anchored(lits), s, closed_at(q + 1, sp), e)).i
                        < s.len())
                &&& scan_finish(
                    end_anchored(lits),
                    s,
                    scan_steps(end_anchored(lits), s, closed_at(q + 1, sp), d),
                ) == sp + end_target(lits, s, q + 1)
            };
        lemma_scan_steps_add(pats, s, st, 1, d2);
        assert(scan_steps(pats, s, st, 1nat) == closed_at(q + 1, sp));
        assert(scan_steps(pats, s, st, (1 + d2) as nat) == scan_steps(pats, s, closed_at(q + 1, sp), d2));
        assert forall|e: nat| e < 1 + d2 implies (#[trigger] scan_steps(pats, s, st, e)).i
            < s.len() by {
            if e > 0 {
                lemma_scan_steps_add(pats, s, st, 1, (e - 1) as nat);
            }
        }
    }
}

/// The scan of an end-anchored literal pattern from an open attempt at `q`
/// that has matched `k` literals.
proof fn lemma_e_open(lits: Seq<GPat>, s: Seq<char>, q: int, k: int, sp: Seq<(int, int)>)
    requires
        all_literals(lits),
        lits.len() >= 1,
        1 <= k <= lits.len(),
        0 <= q,
        q + k <= s.len(),
        prefix_match(lits, s, q, k),
    ensures
        exists|d: nat|
            {
                &&& (#[trigger] scan_steps(end_anchored(lits), s, open_at(q, k, sp), d)).i >= s.len()
                &&& (forall|e: nat|
                    e < d ==> (#[trigger] scan_steps(end_anchored(lits), s, open_at(q, k, sp), e)).i
                        < s.len())
                &&& scan_finish(
                    end_anchored(lits),
                    s,
                    scan_steps(end_anchored(lits), s, open_at(q, k, sp), d),
                ) == sp + end_target(lits, s, q)
            },
    decreases s.len() - q, lits.len() - k,
{
    let pats = end_anchored(lits);
    let ll = lits.len() as int;
    let st = open_at(q, k, sp);
    assert(pats.len() == ll + 1);
    assert(pats[ll] == GPat::Anchor(Anchor::End));
    if k == ll {
        assert(lit_match_at(lits, s, q));
        if q + ll == s.len() {
            assert(eval(pats[ll], s, q + ll) == (true, q + ll));
            let st2 = ScanState { i: q + ll, p: ll + 1, start: Some(q), origin: q, spans: sp };
            assert(scan_step(pats, s, st) == st2);
            assert(scan_steps(pats, s, st, 1nat) == st2);
            assert(scan_finish(pats, s, st2) == sp.push((q, q + ll)));
            assert(end_target(lits, s, q) == seq![(q, q + ll)]);
            assert(sp + end_target(lits, s, q) =~= sp.push((q, q + ll)));
            assert(scan_steps(pats, s, st, 0nat) == st);
        } else {
            assert(eval(pats[ll], s, q + ll) == (false, q + ll));
            assert(scan_step(pats, s, st) == closed_at(q + 1, sp));
            assert(end_target(lits, s, q) == end_target(lits, s, q + 1)) by {
                assert(q < s.len() - ll);
            }
            lemma_e_scan(lits, s, q + 1, sp);
            let d2 = choose|d: nat|
                {
                    &&& (#[trigger] scan_steps(end_anchored(lits), s, closed_at(q + 1, sp), d)).i
                        >= s.len()
                    &&& (forall|e: nat|
                        e < d ==> (#[trigger] scan_steps(
                            end_anchored(lits),
                            s,
                            closed_at(q + 1, sp),
                            e,
                        )).i < s.len())
                    &&& scan_finish(
                        end_anchored(lits),
                        s,
                        scan_steps(end_anchored(lits), s, closed_at(q + 1, sp), d),
                    ) == sp + end_target(lits, s, q + 1)
                };
            lemma_scan_steps_add(pats, s, st, 1, d2);
            assert(scan_steps(pats, s, st, 1nat) == closed_at(q + 1, sp));
            assert(scan_steps(pats, s, st, (1 + d2) as nat) == scan_steps(
                pats,
                s,
                closed_at(q + 1, sp),
                d2,
            ));
            assert forall|e: nat| e < 1 + d2 implies (#[trigger] scan_steps(pats, s, st, e)).i
                < s.len() by {
                if e > 0 {
                    lemma_scan_steps_add(pats, s, st, 1, (e - 1) as nat);
                }
            }
        }
    } else {
        assert(pats[k] == lits[k]);
        assert(lits[k] matches GPat::Atom(Atom::Char(_)));
        if q + k == s.len() {
            assert(scan_steps(pats, s, st, 0nat) == st);
            assert(scan_finish(pats, s, st) == sp);
            assert(q > s.len() - ll);
            assert(sp + end_target(lits, s, q) =~= sp);
        } else if s[q + k] == lit_char(lits, k) {
            assert(eval(pats[k], s, q + k) == (true, q + k + 1));
            assert(scan_step(pats, s, st) == open_at(q, k + 1, sp));
            lemma_e_open(lits, s, q, k + 1, sp);
            let d2 = choose|d: nat|
                {
                    &&& (#[trigger] scan_steps(end_anchored(lits), s, open_at(q, k + 1, sp), d)).i
                        >= s.len()
                    &&& (forall|e: nat|
                        e < d ==> (#[trigger] scan_steps(
                            end_anchored(lits),
                            s,
                            open_at(q, k + 1, sp),
                            e,
                        )).i < s.len())
                    &&& scan_finish(
                        end_anchored(lits),
                        s,
                        scan_steps(end_anchored(lits), s, open_at(q, k + 1, sp), d),
                    ) == sp + end_target(lits, s, q)
                };
            lemma_scan_steps_add(pats, s, st, 1, d2);
            assert(scan_steps(pats, s, st, 1nat) == open_at(q, k + 1, sp));
            assert(scan_steps(pats, s, st, (1 + d2) as nat) == scan_steps(
                pats,
                s,
                open_at(q, k + 1, sp),
                d2,
            ));
            assert forall|e: nat| e < 1 + d2 implies (#[trigger] scan_steps(pats, s, st, e)).i
                < s.len() by {
                if e > 0 {
                    lemma_scan_steps_add(pats, s, st, 1, (e - 1) as nat);
                }
            }
        } else {
            assert(eval(pats[k], s, q + k) == (false, q + k));
            assert(scan_step(pats, s, st) == closed_at(q + 1, sp));
            assert(end_target(lits, s, q) == end_target(lits, s, q + 1)) by {
                if s.len() >= ll && q == s.len() - ll {
                    assert(!lit_match_at(lits, s, q)) by {
                        if lit_match_at(lits, s, q) {
                            assert(s[q + k] == lit_char(lits, k));
                        }
                    }
                }
            }
            lemma_e_scan(lits, s, q + 1, sp);
            let d2 = choose|d: nat|
                {
                    &&& (#[trigger] scan_steps(end_anchored(lits), s, closed_at(q + 1, sp), d)).i
                        >= s.len()
                    &&& (forall|e: nat|
                        e < d ==> (#[trigger] scan_steps(
                            end_anchored(lits),
                            s,
                            closed_at(q + 1, sp),
                            e,
                        )).i < s.len())
                    &&& scan_finish(
                        end_anchored(lits),
                        s,
                        scan_steps(end_anchored(lits), s, closed_at(q + 1, sp), d),
                    ) == sp + end_target(lits, s, q + 1)
                };
            lemma_scan_steps_add(pats, s, st, 1, d2);
            assert(scan_steps(pats, s, st, 1nat) == closed_at(q + 1, sp));
            assert(scan_steps(pats, s, st, (1 + d2) as nat) == scan_steps(
                pats,
                s,
                closed_at(q + 1, sp),
                d2,
            ));
            assert forall|e: nat| e < 1 + d2 implies (#[trigger] scan_steps(pats, s, st, e)).i
                < s.len() by {
                if e > 0 {
                    lemma_scan_steps_add(pats, s, st, 1, (e - 1) as nat);
                }
            }
        }
    }
}

/// An end-anchored literal pattern matches exactly when the input ends with
/// the literal word: whatever step count first exhausts the input, the
/// finished span list is the single final span when the word ends the input,
/// and empty otherwise.
pub proof fn lemma_end_anchored_pattern_spans(lits: Seq<GPat>, s: Seq<char>)
    requires
        lits.len() >= 1,
        all_literals(lits),
    ensures
        forall|d: nat|
            ((#[trigger] scan_steps(end_anchored(lits), s, closed_at(0, Seq::empty()), d)).i >= s.len()
                && (forall|e: nat|
                e < d ==> (#[trigger] scan_steps(end_anchored(lits), s, closed_at(0, Seq::empty()), e)).i
                    < s.len())) ==> scan_finish(
                end_anchored(lits),
                s,
                scan_steps(end_anchored(lits), s, closed_at(0, Seq::empty()), d),
            ) == end_target(lits, s, 0),
{
    let pats = end_anchored(lits);
    let sp0 = Seq::<(int, int)>::empty();
    let st = closed_at(0, sp0);
    lemma_e_scan(lits, s, 0, sp0);
    let d0 = choose|d: nat|
        {
            &&& (#[trigger] scan_steps(end_anchored(lits), s, closed_at(0, sp0), d)).i >= s.len()
            &&& (forall|e: nat|
                e < d ==> (#[trigger] scan_steps(end_anchored(lits), s, closed_at(0, sp0), e)).i
                    < s.len())
            &&& scan_finish(
                end_anchored(lits),
                s,
                scan_steps(end_anchored(lits), s, closed_at(0, sp0), d),
            ) == sp0 + end_target(lits, s, 0)
        };
    assert(sp0 + end_target(lits, s, 0) =~= end_target(lits, s, 0));
    assert forall|d: nat|
        ((#[trigger] scan_steps(pats, s, st, d)).i >= s.len() && (forall|e: nat|
            e < d ==> (#[trigger] scan_steps(pats, s, st, e)).i < s.len())) implies scan_finish(
        pats,
        s,
        scan_steps(pats, s, st, d),
    ) == end_target(lits, s, 0) by {
        lemma_first_exit_unique(pats, s, st, d, d0);
    }
}

/// The scan state a matcher is in, together with the origin of the current
/// attempt.
pub open spec fn st_of(m: Matcher, origin: int) -> ScanState {
    ScanState { i: m.cidx(), p: m.pidx(), start: m.mstart(), origin, spans: m.spans() }
}

/// A node models as an end anchor exactly when it is one.
proof fn lemma_pview_end_anchor(p: Pattern)
    ensures
        (pview(p) == GPat::Anchor(Anchor::End)) <==> (p matches Pattern::Anchor(Anchor::End)),
{
    match p {
        Pattern::Anchor(a) => {
            match a {
                Anchor::Start => {
                    assert(pview(p) == GPat::Anchor(Anchor::Start));
                },
                Anchor::End => {},
            }
        },
        _ => {},
    }
}

impl Matcher {
    /// Scans the whole input, locating every match the greedy scan finds.
    /// The recorded spans are exactly those of the scan state machine:
    /// [`scan_step`] iterated from the ready state until the input is
    /// exhausted, then closed off by [`scan_finish`]. The spans are
    /// non-overlapping, sorted by start index, and lie within the input.
    #[verifier::rlimit(100)]
    pub fn matches(&mut self)
        requires
            old(self).cidx() == 0,
            old(self).pidx() == 0,
            old(self).mstart() is None,
            old(self).spans() == Seq::<(int, int)>::empty(),
        ensures
            final(self).text() == old(self).text(),
            final(self).gpats() == old(self).gpats(),
            ({
                let s = old(self).text();
                let pats = old(self).gpats();
                let st0 = ScanState { i: 0, p: 0, start: None, origin: 0, spans: Seq::empty() };
                if pats.len() == 0 {
                    final(self).spans() == scan_finish(pats, s, st0)
                } else {
                    exists|nn: nat|
                        {
                            &&& (#[trigger] scan_steps(pats, s, st0, nn)).i >= s.len()
                            &&& (forall|k: nat|
                                k < nn ==> (#[trigger] scan_steps(pats, s, st0, k)).i < s.len())
                            &&& final(self).spans() == scan_finish(
                                pats,
                                s,
                                scan_steps(pats, s, st0, nn),
                            )
                        }
                }
            }),
            forall|a: int, b: int|
                0 <= a < b < final(self).spans().len() ==> (#[trigger] final(self).spans()[a]).0
                    <= (#[trigger] final(self).spans()[b]).0,
            forall|a: int|
                0 <= a < final(self).spans().len() ==> 0 <= (#[trigger] final(self).spans()[a]).0
                    <= final(self).spans()[a].1 <= old(self).text().len(),
            spans_non_overlapping(final(self).spans()),
    {
        let ghost s = self.text();
        let ghost pats = self.gpats();
        let ghost st0 = ScanState { i: 0, p: 0, start: None, origin: 0, spans: Seq::empty() };
        let ghost m0 = self.matches@;
        proof {
            lemma_spans_of_len(m0);
            assert(m0 =~= Seq::<Range<usize>>::empty());
        }
        let n = self.chars.len();
        if self.patterns.len() == 0 {
            self.end_match();
            proof {
                lemma_spans_of_push(m0, Range { start: 0usize, end: 0usize });
                assert(self.spans() == Seq::<(int, int)>::empty().push((0, 0)));
                assert(scan_finish(pats, s, st0) == Seq::<(int, int)>::empty().push((0, 0)));
                lemma_spans_of_index(self.matches@, 0);
            }
            return;
        }
        let mut origin: usize = 0;
        proof {
            assert(scan_steps(pats, s, st0, 0) == st_of(*self, origin as int));
        }
        while self.chars.pos() < n
            invariant
                s == old(self).text(),
                pats == old(self).gpats(),
                st0 == (ScanState { i: 0, p: 0, start: None, origin: 0, spans: Seq::empty() }),
                n == s.len(),
                pats.len() > 0,
                self.text() == s,
                self.gpats() == pats,
                0 <= self.cidx() <= s.len(),
                0 <= self.pidx() <= pats.len(),
                origin <= self.cidx(),
                self.mstart() is None ==> origin == self.cidx() && self.pidx() == 0,
                self.mstart() matches Some(m) ==> m == origin,
                forall|a: int, b: int|
                    0 <= a < b < self.spans().len() ==> (#[trigger] self.spans()[a]).0
                        <= (#[trigger] self.spans()[b]).0,
                spans_non_overlapping(self.spans()),
                forall|a: int|
                    0 <= a < self.spans().len() ==> 0 <= (#[trigger] self.spans()[a]).0
                        <= self.spans()[a].1 <= s.len(),
                self.spans().len() > 0 ==> self.spans().last().1 <= origin,
                exists|k: nat|
                    (#[trigger] scan_steps(pats, s, st0, k)) == st_of(*self, origin as int) && (
                    forall|j: nat| j < k ==> (#[trigger] scan_steps(pats, s, st0, j)).i < s.len()),
            decreases s.len() - origin, pats.len() - self.pidx(),
        {
            let ghost stc = st_of(*self, origin as int);
            let ghost kwit = choose|k: nat|
                (#[trigger] scan_steps(pats, s, st0, k)) == stc && (forall|j: nat|
                    j < k ==> (#[trigger] scan_steps(pats, s, st0, j)).i < s.len());
            let ghost ipre = self.cidx();
            if let Some(pattern) = self.patterns.peek() {
                let m1 = self.match_pattern(&pattern);
                proof {
                    lemma_eval_bounds(pview(pattern), s, ipre);
                }
                let is_open = self.match_start.is_some();
                if m1 && !is_open {
                    self.start_match(origin);
                } else if !m1 && is_open {
                    self.reset_match();
                    origin = self.chars.pos();
                } else if !m1 && !is_open {
                    self.chars.consume();
                    origin = self.chars.pos();
                }
                if self.match_start.is_some() {
                    self.patterns.consume();
                }
                proof {
                    assert(scan_step(pats, s, stc) == st_of(*self, origin as int));
                    assert(scan_steps(pats, s, st0, kwit + 1) == st_of(*self, origin as int));
                    assert(forall|j: nat|
                        j < kwit + 1 ==> (#[trigger] scan_steps(pats, s, st0, j)).i < s.len());
                }
            } else {
                let ghost mpre = self.matches@;
                let ghost cm = close_start(stc);
                self.end_match();
                proof {
                    lemma_spans_of_push(
                        mpre,
                        Range { start: cm as usize, end: ipre as usize },
                    );
                }
                if self.chars.pos() == origin {
                    self.chars.consume();
                }
                origin = self.chars.pos();
                proof {
                    lemma_spans_of_len(self.matches@);
                    lemma_spans_of_index(self.matches@, self.matches@.len() - 1);
                    assert(scan_step(pats, s, stc) == st_of(*self, origin as int));
                    assert(scan_steps(pats, s, st0, kwit + 1) == st_of(*self, origin as int));
                    assert(forall|j: nat|
                        j < kwit + 1 ==> (#[trigger] scan_steps(pats, s, st0, j)).i < s.len());
                }
            }
        }
        let ghost stf = st_of(*self, origin as int);
        let ghost mpre = self.matches@;
        let ghost cm = close_start(stf);
        let finishing = match self.patterns.peek() {
            None => true,
            Some(p) => {
                proof {
                    lemma_pview_end_anchor(p);
                }
                match p {
                    Pattern::Anchor(Anchor::End) => true,
                    _ => false,
                }
            },
        };
        if finishing {
            self.end_match();
            proof {
                lemma_spans_of_push(mpre, Range { start: cm as usize, end: stf.i as usize });
                lemma_spans_of_len(self.matches@);
                lemma_spans_of_index(self.matches@, self.matches@.len() - 1);
                assert(self.spans() == scan_finish(pats, s, stf));
            }
        } else {
            proof {
                assert(self.spans() == scan_finish(pats, s, stf));
            }
        }
    }
}

} // verus!
