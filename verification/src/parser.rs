//! The pattern syntax: abstract syntax tree types, a ghost model of the tree,
//! and the recursive-descent compiler from a pattern string to a top-level
//! sequence of pattern nodes.

use vstd::prelude::*;

verus! {

/// A single-character predicate.
#[derive(Clone, Copy, Debug)]
pub enum Atom {
    /// Matches an ASCII digit `0`-`9`.
    Digit,
    /// Matches a letter or a digit.
    Alphanumeric,
    /// Matches any character.
    Wildcard,
    /// Matches exactly this character.
    Char(char),
}

/// A zero-width positional predicate.
#[derive(Clone, Copy, Debug)]
pub enum Anchor {
    /// True only at character index 0.
    Start,
    /// True only when no character remains.
    End,
}

/// A character-class predicate over a list of atoms.
#[derive(Debug)]
pub enum CharSet {
    /// True if the current character matches any listed atom.
    Positive(Vec<Atom>),
    /// True if the current character matches none of the listed atoms.
    Negative(Vec<Atom>),
}

/// One node of the compiled pattern tree.
#[derive(Debug)]
pub enum Pattern {
    Atom(Atom),
    Anchor(Anchor),
    CharSet(CharSet),
    /// Ordered conjunction: every member must match in order.
    Group(Vec<Pattern>),
    OneOrMore(Box<Pattern>),
    ZeroOrMore(Box<Pattern>),
    ZeroOrOne(Box<Pattern>),
    /// Exactly two branches; the left one is tried first.
    Alternation(Box<Pattern>, Box<Pattern>),
}

/// The mathematical model of a character set: a negativity flag and the
/// listed atoms.
pub ghost struct GSet {
    pub negative: bool,
    pub atoms: Seq<Atom>,
}

/// The mathematical model of a pattern node. Children are sequences, so a
/// quantifier's single child appears as a one-element sequence.
#[verifier::ext_equal]
pub ghost enum GPat {
    Atom(Atom),
    Anchor(Anchor),
    CharSet(GSet),
    Group(Seq<GPat>),
    OneOrMore(Seq<GPat>),
    ZeroOrMore(Seq<GPat>),
    ZeroOrOne(Seq<GPat>),
    Alternation(Seq<GPat>, Seq<GPat>),
}

/// The model of a character set value.
pub open spec fn sview(s: CharSet) -> GSet {
    match s {
        CharSet::Positive(v) => GSet { negative: false, atoms: v@ },
        CharSet::Negative(v) => GSet { negative: true, atoms: v@ },
    }
}

/// The model of a pattern node.
pub open spec fn pview(p: Pattern) -> GPat
    decreases p,
{
    match p {
        Pattern::Atom(a) => GPat::Atom(a),
        Pattern::Anchor(a) => GPat::Anchor(a),
        Pattern::CharSet(s) => GPat::CharSet(sview(s)),
        Pattern::Group(ps) => GPat::Group(pviews(ps@)),
        Pattern::OneOrMore(p0) => GPat::OneOrMore(seq![pview(*p0)]),
        Pattern::ZeroOrMore(p0) => GPat::ZeroOrMore(seq![pview(*p0)]),
        Pattern::ZeroOrOne(p0) => GPat::ZeroOrOne(seq![pview(*p0)]),
        Pattern::Alternation(l, r) => GPat::Alternation(seq![pview(*l)], seq![pview(*r)]),
    }
}

/// The models of a sequence of pattern nodes, element by element.
pub open spec fn pviews(ps: Seq<Pattern>) -> Seq<GPat>
    decreases ps,
{
    if ps.len() == 0 {
        Seq::empty()
    } else {
        pviews(ps.drop_last()).push(pview(ps.last()))
    }
}

/// A sequence of nodes and its model have the same length, and corresponding
/// elements.
pub proof fn lemma_pviews_index(ps: Seq<Pattern>, k: int)
    requires
        0 <= k < ps.len(),
    ensures
        pviews(ps).len() == ps.len(),
        pviews(ps)[k] == pview(ps[k]),
    decreases ps.len(),
{
    lemma_pviews_len(ps);
    if k < ps.len() - 1 {
        lemma_pviews_index(ps.drop_last(), k);
    }
}

/// A sequence of nodes and its model have the same length.
pub proof fn lemma_pviews_len(ps: Seq<Pattern>)
    ensures
        pviews(ps).len() == ps.len(),
    decreases ps.len(),
{
    if ps.len() > 0 {
        lemma_pviews_len(ps.drop_last());
    }
}


impl Clone for CharSet {
    /// A clone preserves the set's model.
    fn clone(&self) -> (r: Self)
        ensures
            sview(r) == sview(*self),
    {
        match self {
            CharSet::Positive(v) => CharSet::Positive(clone_atoms(v)),
            CharSet::Negative(v) => CharSet::Negative(clone_atoms(v)),
        }
    }
}

/// Copies a list of atoms element by element.
fn clone_atoms(v: &Vec<Atom>) -> (r: Vec<Atom>)
    ensures
        r@ == v@,
{
    let mut r: Vec<Atom> = Vec::new();
    let mut k: usize = 0;
    while k < v.len()
        invariant
            k <= v@.len(),
            r@ =~= v@.take(k as int),
        decreases v@.len() - k,
    {
        r.push(v[k]);
        k += 1;
        proof {
            assert(r@ =~= v@.take(k as int));
        }
    }
    proof {
        assert(r@ =~= v@);
    }
    r
}

impl Clone for Pattern {
    /// A clone preserves the node's model.
    #[verifier::loop_isolation(false)]
    fn clone(&self) -> (r: Self)
        ensures
            pview(r) == pview(*self),
        decreases self,
    {
        match self {
            Pattern::Atom(a) => Pattern::Atom(*a),
            Pattern::Anchor(a) => Pattern::Anchor(*a),
            Pattern::CharSet(s) => Pattern::CharSet(s.clone()),
            Pattern::Group(ps) => {
                let mut v: Vec<Pattern> = Vec::new();
                let mut k: usize = 0;
                while k < ps.len()
                    invariant
                        k <= ps@.len(),
                        pviews(v@) == pviews(ps@.take(k as int)),
                    decreases ps@.len() - k,
                {
                    proof {
                        assert(decreases_to!(*self => (*self)->Group_0));
                        assert(decreases_to!((*self)->Group_0 => (*self)->Group_0@));
                        assert(decreases_to!((*self)->Group_0@ => (*self)->Group_0@[k as int]));
                    }
                    let ghost vpre = v@;
                    let item = ps[k].clone();
                    v.push(item);
                    k += 1;
                    proof {
                        lemma_pviews_push(vpre, item);
                        lemma_pviews_push(ps@.take(k - 1), ps@[k - 1]);
                        assert(ps@.take(k as int).drop_last() =~= ps@.take(k - 1));
                        assert(pviews(v@) == pviews(ps@.take(k as int)));
                    }
                }
                proof {
                    assert(ps@.take(ps@.len() as int) =~= ps@);
                }
                Pattern::Group(v)
            },
            Pattern::OneOrMore(p) => Pattern::OneOrMore(Box::new((**p).clone())),
            Pattern::ZeroOrMore(p) => Pattern::ZeroOrMore(Box::new((**p).clone())),
            Pattern::ZeroOrOne(p) => Pattern::ZeroOrOne(Box::new((**p).clone())),
            Pattern::Alternation(l, r) => Pattern::Alternation(
                Box::new((**l).clone()),
                Box::new((**r).clone()),
            ),
        }
    }
}

/// The characters that carry syntactic meaning in a pattern string.
pub open spec fn is_meta(c: char) -> bool {
    c == '^' || c == '$' || c == '\\' || c == '+' || c == '*' || c == '?' || c == '.' || c == '('
        || c == ')' || c == '[' || c == ']' || c == '|'
}

/// The error message of an unhandled escape `\c`: the offending character
/// appended to a fixed prefix.
pub open spec fn unhandled_escape_msg(c: char) -> Seq<char> {
    "Unhandled escape pattern: \\"@.push(c)
}

/// The atom an escape sequence `\c` stands for, or none for an unhandled
/// escape.
pub open spec fn escape_atom(c: char) -> Option<Atom> {
    if c == 'd' {
        Some(Atom::Digit)
    } else if c == 'w' {
        Some(Atom::Alphanumeric)
    } else if is_meta(c) {
        Some(Atom::Char(c))
    } else {
        None
    }
}

/// The position of the first `]` at or after `j`, if any.
pub open spec fn find_close(s: Seq<char>, j: int) -> Option<int>
    decreases s.len() - j,
{
    if j < 0 || j >= s.len() {
        None
    } else if s[j] == ']' {
        Some(j)
    } else {
        find_close(s, j + 1)
    }
}

/// The literal atoms of a character set spanning `s[start..close]`.
pub open spec fn set_atoms(s: Seq<char>, start: int, close: int) -> Seq<Atom>
    decreases close - start,
{
    if start >= close {
        Seq::empty()
    } else {
        set_atoms(s, start, close - 1).push(Atom::Char(s[close - 1]))
    }
}

/// The error message of a dangling quantifier `c`.
pub open spec fn quant_err(c: char) -> Seq<char> {
    if c == '+' {
        "Failed to parse OneOrMore expression"@
    } else if c == '*' {
        "Failed to parse ZeroOrMore expression"@
    } else {
        "Failed to parse ZeroOrOne expression"@
    }
}

/// The literal-character node for `c`.
pub open spec fn char_node(c: char) -> GPat {
    GPat::Atom(Atom::Char(c))
}

/// The quantifier node `c` wraps its operand in.
pub open spec fn quant_node(c: char, operand: GPat) -> GPat {
    if c == '+' {
        GPat::OneOrMore(seq![operand])
    } else if c == '*' {
        GPat::ZeroOrMore(seq![operand])
    } else {
        GPat::ZeroOrOne(seq![operand])
    }
}

/// The compiler, one left-to-right pass from position `i` with the nodes
/// built so far in `acc`. `deep` says whether this pass parses the contents
/// of an open group. Returns the parse's outcome and the position after the
/// characters it consumed.
pub open spec fn spec_parse(s: Seq<char>, i: int, deep: bool, acc: Seq<GPat>) -> (Result<
    Seq<GPat>,
    Seq<char>,
>, int)
    decreases s.len() - i,
{
    if i < 0 || i >= s.len() {
        (if deep {
            Err("Unclosed ("@)
        } else {
            Ok(acc)
        }, i)
    } else {
        let c = s[i];
        if !is_meta(c) {
            spec_parse(s, i + 1, deep, acc.push(char_node(c)))
        } else if c == '\\' {
            if i + 1 >= s.len() {
                (Err("Unfinished escape pattern"@), i + 1)
            } else {
                match escape_atom(s[i + 1]) {
                    Some(a) => spec_parse(s, i + 2, deep, acc.push(GPat::Atom(a))),
                    None => (Err(unhandled_escape_msg(s[i + 1])), i + 2),
                }
            }
        } else if c == '[' {
            let neg = i + 1 < s.len() && s[i + 1] == '^';
            let start = if neg {
                i + 2
            } else {
                i + 1
            };
            match find_close(s, start) {
                None => (Err("Unclosed ["@), s.len() as int),
                Some(k) => {
                    let node = GPat::CharSet(GSet { negative: neg, atoms: set_atoms(s, start, k) });
                    let nxt = if i + 1 < k + 1 && k + 1 <= s.len() {
                        k + 1
                    } else {
                        i + 1
                    };
                    spec_parse(s, nxt, deep, acc.push(node))
                },
            }
        } else if c == ']' {
            (Err("Unopened ["@), i + 1)
        } else if c == '^' {
            spec_parse(s, i + 1, deep, acc.push(GPat::Anchor(Anchor::Start)))
        } else if c == '$' {
            spec_parse(s, i + 1, deep, acc.push(GPat::Anchor(Anchor::End)))
        } else if c == '+' || c == '*' || c == '?' {
            if acc.len() == 0 {
                (Err(quant_err(c)), i + 1)
            } else {
                spec_parse(s, i + 1, deep, acc.drop_last().push(quant_node(c, acc.last())))
            }
        } else if c == '.' {
            spec_parse(s, i + 1, deep, acc.push(GPat::Atom(Atom::Wildcard)))
        } else if c == '(' {
            let (rr, j) = spec_parse(s, i + 1, true, Seq::empty());
            match rr {
                Err(e) => (Err(e), j),
                Ok(inner) => {
                    let nxt = if i + 1 < j && j <= s.len() {
                        j
                    } else {
                        i + 1
                    };
                    spec_parse(s, nxt, deep, acc.push(GPat::Group(inner)))
                },
            }
        } else if c == ')' {
            if deep {
                (Ok(acc), i + 1)
            } else {
                (Err("Unopened )"@), i + 1)
            }
        } else {
            let (rr, j) = spec_parse(s, i + 1, deep, Seq::empty());
            match rr {
                Err(e) => (Err(e), j),
                Ok(inner) => (
                    Ok(
                        seq![
                            GPat::Alternation(
                                seq![GPat::Group(acc)],
                                seq![GPat::Group(inner)],
                            )
                        ],
                    ),
                    j,
                ),
            }
        }
    }
}

/// A found `]` lies at or after the search start, inside the input.
pub proof fn lemma_find_close_bounds(s: Seq<char>, j: int)
    requires
        0 <= j <= s.len(),
    ensures
        match find_close(s, j) {
            Some(k) => j <= k < s.len() && s[k] == ']',
            None => true,
        },
    decreases s.len() - j,
{
    if j < s.len() && s[j] != ']' {
        lemma_find_close_bounds(s, j + 1);
    }
}

/// The claim of [`lemma_parse_bounds`] at one position.
pub open spec fn parse_bounds_ok(s: Seq<char>, i: int, deep: bool, acc: Seq<GPat>) -> bool {
    let (rr, j) = spec_parse(s, i, deep, acc);
    &&& i <= j <= s.len()
    &&& (rr is Ok && deep ==> j >= i + 1)
    &&& (rr is Ok && !deep ==> j == s.len())
}

/// The compiler never moves backwards nor past the end; a successful parse of
/// a group's contents consumed at least its closing `)`, and a successful
/// top-level parse consumed the whole input.
#[verifier::rlimit(100)]
pub proof fn lemma_parse_bounds(s: Seq<char>, i: int, deep: bool, acc: Seq<GPat>)
    requires
        0 <= i <= s.len(),
    ensures
        parse_bounds_ok(s, i, deep, acc),
    decreases s.len() - i,
{
    if i < s.len() {
        let c = s[i];
        if !is_meta(c) {
            lemma_parse_bounds(s, i + 1, deep, acc.push(char_node(c)));
            assert(parse_bounds_ok(s, i, deep, acc));
        } else if c == '\\' {
            if i + 1 < s.len() {
                match escape_atom(s[i + 1]) {
                    Some(a) => lemma_parse_bounds(s, i + 2, deep, acc.push(GPat::Atom(a))),
                    None => {},
                }
            }
            assert(parse_bounds_ok(s, i, deep, acc));
        } else if c == '[' {
            let neg = i + 1 < s.len() && s[i + 1] == '^';
            let start = if neg {
                i + 2
            } else {
                i + 1
            };
            lemma_find_close_bounds(s, start);
            match find_close(s, start) {
                None => {},
                Some(k) => {
                    let node = GPat::CharSet(GSet { negative: neg, atoms: set_atoms(s, start, k) });
                    lemma_parse_bounds(s, k + 1, deep, acc.push(node));
                },
            }
            assert(parse_bounds_ok(s, i, deep, acc));
        } else if c == '^' {
            lemma_parse_bounds(s, i + 1, deep, acc.push(GPat::Anchor(Anchor::Start)));
            assert(parse_bounds_ok(s, i, deep, acc));
        } else if c == '$' {
            lemma_parse_bounds(s, i + 1, deep, acc.push(GPat::Anchor(Anchor::End)));
            assert(parse_bounds_ok(s, i, deep, acc));
        } else if c == '+' || c == '*' || c == '?' {
            if acc.len() > 0 {
                lemma_parse_bounds(s, i + 1, deep, acc.drop_last().push(quant_node(c, acc.last())));
            }
            assert(parse_bounds_ok(s, i, deep, acc));
        } else if c == '.' {
            lemma_parse_bounds(s, i + 1, deep, acc.push(GPat::Atom(Atom::Wildcard)));
            assert(parse_bounds_ok(s, i, deep, acc));
        } else if c == '(' {
            lemma_parse_bounds(s, i + 1, true, Seq::empty());
            let (rr, j) = spec_parse(s, i + 1, true, Seq::empty());
            match rr {
                Err(_) => {},
                Ok(inner) => {
                    lemma_parse_bounds(s, j, deep, acc.push(GPat::Group(inner)));
                },
            }
            assert(parse_bounds_ok(s, i, deep, acc));
        } else if c == ')' || c == ']' {
            assert(parse_bounds_ok(s, i, deep, acc));
        } else {
            lemma_parse_bounds(s, i + 1, deep, Seq::empty());
            assert(parse_bounds_ok(s, i, deep, acc));
        }
    }
}

/// Appending a node models as appending its model.
pub proof fn lemma_pviews_push(ps: Seq<Pattern>, p: Pattern)
    ensures
        pviews(ps.push(p)) == pviews(ps).push(pview(p)),
{
    assert(ps.push(p).drop_last() =~= ps);
    assert(ps.push(p).last() == p);
}

/// Removing the last node models as removing the last model.
pub proof fn lemma_pviews_drop_last(ps: Seq<Pattern>)
    requires
        ps.len() > 0,
    ensures
        pviews(ps.drop_last()) == pviews(ps).drop_last(),
        pviews(ps).last() == pview(ps.last()),
        pviews(ps).len() == ps.len(),
{
    lemma_pviews_len(ps.drop_last());
}

/// The recursive-descent compiler over a pattern string.
pub struct Parser {
    chars: Vec<char>,
    index: usize,
}

impl Parser {
    /// The pattern string's character sequence.
    pub closed spec fn seq(&self) -> Seq<char> {
        self.chars@
    }

    /// The current position.
    pub closed spec fn idx(&self) -> int {
        self.index as int
    }

    /// Starts a compiler at the beginning of `input`.
    pub fn new(input: &str) -> (p: Self)
        ensures
            p.seq() == input@,
            p.idx() == 0,
    {
        let n = input.unicode_len();
        let mut chars: Vec<char> = Vec::new();
        let mut i: usize = 0;
        while i < n
            invariant
                i <= n,
                n == input@.len(),
                chars@ =~= input@.take(i as int),
            decreases n - i,
        {
            chars.push(input.get_char(i));
            i += 1;
            proof {
                assert(chars@ =~= input@.take(i as int));
            }
        }
        proof {
            assert(chars@ =~= input@);
        }
        Self { chars, index: 0 }
    }

    /// The character at the current position, or none at the end.
    pub fn peek(&self) -> (r: Option<char>)
        ensures
            r == if self.idx() < self.seq().len() {
                Some(self.seq()[self.idx()])
            } else {
                None::<char>
            },
    {
        if self.index < self.chars.len() {
            Some(self.chars[self.index])
        } else {
            None
        }
    }

    /// Returns the current character and advances past it.
    pub fn next(&mut self) -> (r: Option<char>)
        ensures
            final(self).seq() == old(self).seq(),
            r == if old(self).idx() < old(self).seq().len() {
                Some(old(self).seq()[old(self).idx()])
            } else {
                None::<char>
            },
            final(self).idx() == if old(self).idx() < old(self).seq().len() {
                old(self).idx() + 1
            } else {
                old(self).idx()
            },
    {
        if self.index < self.chars.len() {
            let c = self.chars[self.index];
            self.index += 1;
            Some(c)
        } else {
            None
        }
    }

    /// Compiles from the current position: the whole pattern at `depth` 0, or
    /// the contents of an open group at `depth > 0`. Returns the top-level
    /// node sequence, or the first syntax error.
    #[verifier::loop_isolation(false)]
    #[verifier::rlimit(100)]
    pub fn parse(&mut self, depth: usize) -> (r: Result<Vec<Pattern>, String>)
        requires
            old(self).idx() <= old(self).seq().len(),
        ensures
            final(self).seq() == old(self).seq(),
            old(self).idx() <= final(self).idx() <= old(self).seq().len(),
            ({
                let (rr, j) = spec_parse(
                    old(self).seq(),
                    old(self).idx(),
                    depth > 0,
                    Seq::empty(),
                );
                &&& final(self).idx() == j
                &&& match rr {
                    Ok(ps) => r matches Ok(v) && pviews(v@) == ps,
                    Err(e) => r matches Err(m) && m@ == e,
                }
            }),
        decreases old(self).seq().len() - old(self).idx(),
    {
        let ghost s = self.seq();
        let ghost i0 = self.idx();
        let ghost deep = depth > 0;
        let mut group: Vec<Pattern> = Vec::new();
        proof {
            assert(pviews(group@) =~= Seq::<GPat>::empty());
        }
        let n = self.chars.len();
        while self.index < n
            invariant
                s == old(self).seq(),
                i0 == old(self).idx(),
                deep == (depth > 0),
                n == s.len(),
                self.seq() == s,
                i0 <= self.idx() <= s.len(),
                spec_parse(s, self.idx(), deep, pviews(group@)) == spec_parse(
                    s,
                    i0,
                    deep,
                    Seq::empty(),
                ),
            decreases s.len() - self.idx(),
        {
            let ghost i = self.idx();
            let ghost g0 = group@;
            let ghost acc = pviews(group@);
            let copt = self.next();
            if let Some(c) = copt {
                match c {
                    '\\' => {
                        match self.parse_escape() {
                            Ok(node) => {
                                proof {
                                    assert(i + 1 < s.len());
                                    assert(escape_atom(s[i + 1]) is Some);
                                    assert(pview(node) == GPat::Atom(escape_atom(s[i + 1])->0));
                                    lemma_pviews_push(g0, node);
                                }
                                group.push(node);
                                proof {
                                    assert(self.idx() == i + 2);
                                    assert(pviews(group@) == acc.push(GPat::Atom(escape_atom(s[i + 1])->0)));
                                    assert(spec_parse(s, i, deep, acc) == spec_parse(
                                        s,
                                        i + 2,
                                        deep,
                                        pviews(group@),
                                    ));
                                    assert(i0 <= self.idx() <= s.len());
                                    assert(spec_parse(s, self.idx(), deep, pviews(group@))
                                        == spec_parse(s, i0, deep, Seq::empty()));
                                }
                            },
                            Err(msg) => {
                                return Err(msg);
                            },
                        }
                    },
                    '[' => {
                        match self.parse_set() {
                            Ok(node) => {
                                proof {
                                    lemma_pviews_push(g0, node);
                                }
                                group.push(node);
                                proof {
                                    let neg = i + 1 < s.len() && s[i + 1] == '^';
                                    let start = if neg {
                                        i + 2
                                    } else {
                                        i + 1
                                    };
                                    lemma_find_close_bounds(s, start);
                                    assert(find_close(s, start) is Some);
                                    let k = find_close(s, start)->0;
                                    assert(self.idx() == k + 1);
                                    assert(pviews(group@) == acc.push(GPat::CharSet(GSet { negative: neg, atoms: set_atoms(s, start, k) })));
                                    assert(spec_parse(s, i, deep, acc) == spec_parse(
                                        s,
                                        k + 1,
                                        deep,
                                        pviews(group@),
                                    ));
                                    assert(i0 <= self.idx() <= s.len());
                                    assert(spec_parse(s, self.idx(), deep, pviews(group@))
                                        == spec_parse(s, i0, deep, Seq::empty()));
                                }
                            },
                            Err(msg) => {
                                return Err(msg);
                            },
                        }
                    },
                    ']' => {
                        return Err("Unopened [".to_owned());
                    },
                    '^' => {
                        proof {
                            lemma_pviews_push(group@, Pattern::Anchor(Anchor::Start));
                        }
                        group.push(Pattern::Anchor(Anchor::Start));
                        proof {
                            assert(pviews(group@) == acc.push(GPat::Anchor(Anchor::Start)));
                            assert(spec_parse(s, i, deep, acc) == spec_parse(
                                s,
                                i + 1,
                                deep,
                                pviews(group@),
                            ));
                            assert(i0 <= self.idx() <= s.len());
                            assert(spec_parse(s, self.idx(), deep, pviews(group@))
                                == spec_parse(s, i0, deep, Seq::empty()));
                        }
                    },
                    '$' => {
                        proof {
                            lemma_pviews_push(group@, Pattern::Anchor(Anchor::End));
                        }
                        group.push(Pattern::Anchor(Anchor::End));
                        proof {
                            assert(pviews(group@) == acc.push(GPat::Anchor(Anchor::End)));
                            assert(spec_parse(s, i, deep, acc) == spec_parse(
                                s,
                                i + 1,
                                deep,
                                pviews(group@),
                            ));
                            assert(i0 <= self.idx() <= s.len());
                            assert(spec_parse(s, self.idx(), deep, pviews(group@))
                                == spec_parse(s, i0, deep, Seq::empty()));
                        }
                    },
                    '+' => {
                        if let Some(last) = group.pop() {
                            let node = Pattern::OneOrMore(Box::new(last));
                            proof {
                                assert(g0.len() > 0 && last == g0.last() && group@ == g0.drop_last());
                                lemma_pviews_drop_last(g0);
                                lemma_pviews_push(g0.drop_last(), node);
                                assert(acc.len() > 0);
                                assert(pview(node) == quant_node(c, acc.last()));
                            }
                            group.push(node);
                            proof {
                                assert(pviews(group@) == acc.drop_last().push(quant_node(c, acc.last())));
                                assert(spec_parse(s, i, deep, acc) == spec_parse(
                                    s,
                                    i + 1,
                                    deep,
                                    pviews(group@),
                                ));
                                assert(i0 <= self.idx() <= s.len());
                                assert(spec_parse(s, self.idx(), deep, pviews(group@))
                                    == spec_parse(s, i0, deep, Seq::empty()));
                            }
                        } else {
                            proof {
                                lemma_pviews_len(g0);
                            }
                            return Err("Failed to parse OneOrMore expression".to_owned());
                        }
                    },
                    '*' => {
                        if let Some(last) = group.pop() {
                            let node = Pattern::ZeroOrMore(Box::new(last));
                            proof {
                                assert(g0.len() > 0 && last == g0.last() && group@ == g0.drop_last());
                                lemma_pviews_drop_last(g0);
                                lemma_pviews_push(g0.drop_last(), node);
                                assert(acc.len() > 0);
                                assert(pview(node) == quant_node(c, acc.last()));
                            }
                            group.push(node);
                            proof {
                                assert(pviews(group@) == acc.drop_last().push(quant_node(c, acc.last())));
                                assert(spec_parse(s, i, deep, acc) == spec_parse(
                                    s,
                                    i + 1,
                                    deep,
                                    pviews(group@),
                                ));
                                assert(i0 <= self.idx() <= s.len());
                                assert(spec_parse(s, self.idx(), deep, pviews(group@))
                                    == spec_parse(s, i0, deep, Seq::empty()));
                            }
                        } else {
                            proof {
                                lemma_pviews_len(g0);
                            }
                            return Err("Failed to parse ZeroOrMore expression".to_owned());
                        }
                    },
                    '?' => {
                        if let Some(last) = group.pop() {
                            let node = Pattern::ZeroOrOne(Box::new(last));
                            proof {
                                assert(g0.len() > 0 && last == g0.last() && group@ == g0.drop_last());
                                lemma_pviews_drop_last(g0);
                                lemma_pviews_push(g0.drop_last(), node);
                                assert(acc.len() > 0);
                                assert(pview(node) == quant_node(c, acc.last()));
                            }
                            group.push(node);
                            proof {
                                assert(pviews(group@) == acc.drop_last().push(quant_node(c, acc.last())));
                                assert(spec_parse(s, i, deep, acc) == spec_parse(
                                    s,
                                    i + 1,
                                    deep,
                                    pviews(group@),
                                ));
                                assert(i0 <= self.idx() <= s.len());
                                assert(spec_parse(s, self.idx(), deep, pviews(group@))
                                    == spec_parse(s, i0, deep, Seq::empty()));
                            }
                        } else {
                            proof {
                                lemma_pviews_len(g0);
                            }
                            return Err("Failed to parse ZeroOrOne expression".to_owned());
                        }
                    },
                    '.' => {
                        proof {
                            lemma_pviews_push(group@, Pattern::Atom(Atom::Wildcard));
                        }
                        group.push(Pattern::Atom(Atom::Wildcard));
                        proof {
                            assert(pviews(group@) == acc.push(GPat::Atom(Atom::Wildcard)));
                            assert(spec_parse(s, i, deep, acc) == spec_parse(
                                s,
                                i + 1,
                                deep,
                                pviews(group@),
                            ));
                            assert(i0 <= self.idx() <= s.len());
                            assert(spec_parse(s, self.idx(), deep, pviews(group@))
                                == spec_parse(s, i0, deep, Seq::empty()));
                        }
                    },
                    '(' => {
                        proof {
                            lemma_parse_bounds(s, i + 1, true, Seq::empty());
                        }
                        let d2 = if depth < usize::MAX {
                            depth + 1
                        } else {
                            depth
                        };
                        match self.parse(d2) {
                            Ok(inner) => {
                                let ghost innerv = inner@;
                                let node = Pattern::Group(inner);
                                proof {
                                    lemma_pviews_push(g0, node);
                                }
                                group.push(node);
                                proof {
                                    let (rri, j) = spec_parse(s, i + 1, true, Seq::empty());
                                    assert(rri matches Ok(ps) && pviews(innerv) == ps);
                                    assert(self.idx() == j);
                                    assert(i + 1 < j <= s.len());
                                    assert(pviews(group@) == acc.push(GPat::Group(pviews(innerv))));
                                    assert(spec_parse(s, i, deep, acc) == spec_parse(
                                        s,
                                        j,
                                        deep,
                                        pviews(group@),
                                    ));
                                    assert(i0 <= self.idx() <= s.len());
                                    assert(spec_parse(s, self.idx(), deep, pviews(group@))
                                        == spec_parse(s, i0, deep, Seq::empty()));
                                }
                            },
                            Err(msg) => {
                                return Err(msg);
                            },
                        }
                    },
                    ')' => {
                        if depth > 0 {
                            return Ok(group);
                        } else {
                            return Err("Unopened )".to_owned());
                        }
                    },
                    '|' => {
                        proof {
                            lemma_parse_bounds(s, i + 1, deep, Seq::empty());
                        }
                        match self.parse(depth) {
                            Ok(inner) => {
                                let ghost innerv = inner@;
                                let left = Pattern::Group(group);
                                let right = Pattern::Group(inner);
                                proof {
                                    assert(pview(left) == GPat::Group(acc));
                                    assert(pview(right) == GPat::Group(pviews(innerv)));
                                }
                                let alt = Pattern::Alternation(Box::new(left), Box::new(right));
                                proof {
                                    assert(pview(alt) == GPat::Alternation(
                                        seq![GPat::Group(acc)],
                                        seq![GPat::Group(pviews(innerv))],
                                    ));
                                }
                                let mut alt_group: Vec<Pattern> = Vec::new();
                                alt_group.push(alt);
                                proof {
                                    lemma_pviews_push(Seq::empty(), alt);
                                    assert(pviews(alt_group@) == seq![pview(alt)]);
                                }
                                if depth > 0 {
                                    return Ok(alt_group);
                                } else {
                                    group = alt_group;
                                    proof {
                                        assert(i0 <= self.idx() <= s.len());
                                        assert(spec_parse(s, self.idx(), deep, pviews(group@))
                                            == spec_parse(s, i0, deep, Seq::empty()));
                                    }
                                }
                            },
                            Err(msg) => {
                                return Err(msg);
                            },
                        }
                    },
                    _ => {
                        let node = Pattern::Atom(Atom::Char(c));
                        proof {
                            lemma_pviews_push(g0, node);
                            assert(pview(node) == char_node(c));
                            assert(!is_meta(c));
                        }
                        group.push(node);
                        proof {
                            assert(pviews(group@) == acc.push(char_node(c)));
                            assert(spec_parse(s, i, deep, acc) == spec_parse(
                                s,
                                i + 1,
                                deep,
                                pviews(group@),
                            ));
                            assert(i0 <= self.idx() <= s.len());
                            assert(spec_parse(s, self.idx(), deep, pviews(group@))
                                == spec_parse(s, i0, deep, Seq::empty()));
                        }
                    },
                }
            }
        }
        if depth == 0 {
            Ok(group)
        } else {
            Err("Unclosed (".to_owned())
        }
    }

    /// Compiles one escape sequence, after its backslash was consumed.
    fn parse_escape(&mut self) -> (r: Result<Pattern, String>)
        requires
            old(self).idx() <= old(self).seq().len(),
        ensures
            final(self).seq() == old(self).seq(),
            ({
                let s = old(self).seq();
                let i = old(self).idx();
                if i < s.len() {
                    &&& final(self).idx() == i + 1
                    &&& match escape_atom(s[i]) {
                        Some(a) => r matches Ok(p) && pview(p) == GPat::Atom(a),
                        None => r matches Err(m) && m@ == unhandled_escape_msg(s[i]),
                    }
                } else {
                    &&& final(self).idx() == i
                    &&& r matches Err(m) && m@ == "Unfinished escape pattern"@
                }
            }),
    {
        if let Some(c) = self.next() {
            match c {
                'd' => Ok(Pattern::Atom(Atom::Digit)),
                'w' => Ok(Pattern::Atom(Atom::Alphanumeric)),
                '^' | '$' | '\\' | '+' | '*' | '?' | '.' | '(' | ')' | '[' | ']' | '|' => Ok(
                    Pattern::Atom(Atom::Char(c)),
                ),
                _ => Err(unhandled_escape_message(c)),
            }
        } else {
            Err("Unfinished escape pattern".to_owned())
        }
    }

    /// Compiles one character set, after its opening `[` was consumed.
    fn parse_set(&mut self) -> (r: Result<Pattern, String>)
        requires
            old(self).idx() <= old(self).seq().len(),
        ensures
            final(self).seq() == old(self).seq(),
            ({
                let s = old(self).seq();
                let i = old(self).idx();
                let neg = i < s.len() && s[i] == '^';
                let start = if neg {
                    i + 1
                } else {
                    i
                };
                match find_close(s, start) {
                    None => {
                        &&& final(self).idx() == s.len()
                        &&& r matches Err(m) && m@ == "Unclosed ["@
                    },
                    Some(k) => {
                        &&& final(self).idx() == k + 1
                        &&& r matches Ok(p) && pview(p) == GPat::CharSet(
                            GSet { negative: neg, atoms: set_atoms(s, start, k) },
                        )
                    },
                }
            }),
    {
        let negative = if let Some(c) = self.peek() {
            c == '^'
        } else {
            false
        };
        if negative {
            let _ = self.next();
        }
        let mut elements: Vec<Atom> = Vec::new();
        let stop = scan_set_elements(&self.chars, self.index, &mut elements);
        if stop < self.chars.len() {
            self.index = stop + 1;
            let st = if negative {
                CharSet::Negative(elements)
            } else {
                CharSet::Positive(elements)
            };
            Ok(Pattern::CharSet(st))
        } else {
            self.index = stop;
            Err("Unclosed [".to_owned())
        }
    }
}

/// Relies on alloc's string formatting: appends the offending character to
/// the unhandled-escape message's fixed prefix.
#[verifier::external_body]
fn unhandled_escape_message(c: char) -> (r: String)
    ensures
        r@ == unhandled_escape_msg(c),
{
    format!("Unhandled escape pattern: \\{}", c)
}

/// Scans the literal atoms of a character set from `from` up to the first
/// `]`, or to the end of the input when the set is unterminated. Fills
/// `elements` with the atoms and returns the stop position.
fn scan_set_elements(chars: &Vec<char>, from: usize, elements: &mut Vec<Atom>) -> (stop: usize)
    requires
        from <= chars@.len(),
        old(elements)@.len() == 0,
    ensures
        from <= stop <= chars@.len(),
        final(elements)@ == set_atoms(chars@, from as int, stop as int),
        match find_close(chars@, from as int) {
            None => stop == chars@.len(),
            Some(k) => stop == k && stop < chars@.len() && chars@[stop as int] == ']',
        },
{
    let ghost s = chars@;
    let mut i: usize = from;
    while i < chars.len() && chars[i] != ']'
        invariant
            s == chars@,
            from <= i <= s.len(),
            find_close(s, from as int) == find_close(s, i as int),
            elements@ == set_atoms(s, from as int, i as int),
        decreases s.len() - i,
    {
        elements.push(Atom::Char(chars[i]));
        i = i + 1;
    }
    proof {
        if i < s.len() {
            assert(find_close(s, i as int) == Some(i as int));
        } else {
            assert(find_close(s, i as int) is None);
        }
    }
    i
}

} // verus!
