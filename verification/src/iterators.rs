//! Position-tracking cursors over the compiled pattern sequence and over the
//! input's character sequence.

use vstd::prelude::*;

use crate::parser::{
    lemma_pviews_index, lemma_pviews_len, pview, pviews, spec_parse, GPat, Parser, Pattern,
};

verus! {

/// A pattern cursor's position is never negative.
pub broadcast proof fn lemma_pattern_iter_idx_nonneg(it: &PatternIter)
    ensures
        0 <= #[trigger] it.idx(),
{
}

/// A character cursor's position is never negative.
pub broadcast proof fn lemma_char_iter_idx_nonneg(it: &CharIter)
    ensures
        0 <= #[trigger] it.idx(),
{
}

/// A cursor over the compiled top-level pattern sequence.
pub struct PatternIter {
    patterns: Vec<Pattern>,
    pub index: usize,
}

impl PatternIter {
    /// The models of the compiled top-level nodes.
    pub closed spec fn gpats(&self) -> Seq<GPat> {
        pviews(self.patterns@)
    }

    /// The current position.
    pub closed spec fn idx(&self) -> int {
        self.index as int
    }

    /// Compiles `pattern` and starts the cursor at the first node.
    pub fn new(pattern: &str) -> (r: Result<Self, String>)
        ensures
            ({
                let (rr, j) = spec_parse(pattern@, 0, false, Seq::empty());
                match rr {
                    Ok(ps) => r matches Ok(it) && it.gpats() == ps && it.idx() == 0,
                    Err(e) => r matches Err(m) && m@ == e,
                }
            }),
    {
        let mut parser = Parser::new(pattern);
        match parser.parse(0) {
            Ok(patterns) => Ok(Self { patterns, index: 0 }),
            Err(e) => Err(e),
        }
    }

    /// Advances by one node, unless already past the end.
    pub fn consume(&mut self)
        ensures
            final(self).gpats() == old(self).gpats(),
            final(self).idx() == if old(self).idx() < old(self).gpats().len() {
                old(self).idx() + 1
            } else {
                old(self).idx()
            },
    {
        proof {
            lemma_pviews_len(self.patterns@);
        }
        if self.index < self.patterns.len() {
            self.index += 1;
        }
    }

    /// The node at the current index, or none past the end.
    pub fn peek(&self) -> (r: Option<Pattern>)
        ensures
            match r {
                Some(p) => self.idx() < self.gpats().len() && pview(p) == self.gpats()[self.idx()],
                None => self.idx() >= self.gpats().len(),
            },
    {
        proof {
            lemma_pviews_len(self.patterns@);
        }
        if self.index < self.patterns.len() {
            proof {
                lemma_pviews_index(self.patterns@, self.index as int);
            }
            Some(self.patterns[self.index].clone())
        } else {
            None
        }
    }

    /// Returns the node at the current index and advances past it.
    pub fn next(&mut self) -> (r: Option<Pattern>)
        ensures
            final(self).gpats() == old(self).gpats(),
            match r {
                Some(p) => old(self).idx() < old(self).gpats().len() && pview(p) == old(
                    self,
                ).gpats()[old(self).idx()] && final(self).idx() == old(self).idx() + 1,
                None => old(self).idx() >= old(self).gpats().len() && final(self).idx() == old(
                    self,
                ).idx(),
            },
    {
        let pat = self.peek();
        self.consume();
        pat
    }

    /// Returns the cursor to the start of the sequence.
    pub fn reset(&mut self)
        ensures
            final(self).gpats() == old(self).gpats(),
            final(self).idx() == 0,
    {
        self.index = 0;
    }

    /// The number of top-level nodes.
    pub fn len(&self) -> (n: usize)
        ensures
            n == self.gpats().len(),
    {
        proof {
            lemma_pviews_len(self.patterns@);
        }
        self.patterns.len()
    }
}

/// A cursor over the input's character sequence.
pub struct CharIter {
    chars: Vec<char>,
    pub index: usize,
}

impl CharIter {
    /// The character sequence this cursor walks.
    pub closed spec fn seq(&self) -> Seq<char> {
        self.chars@
    }

    /// The current position.
    pub closed spec fn idx(&self) -> int {
        self.index as int
    }

    /// Decomposes the input into its character sequence and starts at index 0.
    pub fn new(input: &str) -> (r: Result<Self, String>)
        ensures
            r is Ok,
            r->Ok_0.seq() == input@,
            r->Ok_0.idx() == 0,
    {
        let n = input.unicode_len();
        let mut chars: Vec<char> = Vec::new();
        let mut i: usize = 0;
        while i < n
            invariant
                i <= n,
                n == input@.len(),
                chars@ =~= input@.take(i as int),
            decreases n - i,
        {
            chars.push(input.get_char(i));
            i += 1;
            proof {
                assert(chars@ =~= input@.take(i as int));
            }
        }
        proof {
            assert(chars@ =~= input@);
        }
        Ok(Self { chars, index: 0 })
    }

    /// Advances by one character, unless already past the end.
    pub fn consume(&mut self)
        ensures
            final(self).seq() == old(self).seq(),
            final(self).idx() == if old(self).idx() < old(self).seq().len() {
                old(self).idx() + 1
            } else {
                old(self).idx()
            },
    {
        if self.index < self.chars.len() {
            self.index += 1;
        }
    }

    /// The character at the current index, or none past the end.
    pub fn peek(&self) -> (r: Option<char>)
        ensures
            r == if self.idx() < self.seq().len() {
                Some(self.seq()[self.idx()])
            } else {
                None::<char>
            },
    {
        if self.index < self.chars.len() {
            Some(self.chars[self.index])
        } else {
            None
        }
    }

    /// Returns the current character and advances past it.
    pub fn next(&mut self) -> (r: Option<char>)
        ensures
            final(self).seq() == old(self).seq(),
            r == if old(self).idx() < old(self).seq().len() {
                Some(old(self).seq()[old(self).idx()])
            } else {
                None::<char>
            },
            final(self).idx() == if old(self).idx() < old(self).seq().len() {
                old(self).idx() + 1
            } else {
                old(self).idx()
            },
    {
        let c = self.peek();
        self.consume();
        c
    }

    /// Jumps the index directly to `index`; the peeked character follows.
    pub fn set_index(&mut self, index: usize)
        ensures
            final(self).seq() == old(self).seq(),
            final(self).idx() == index,
    {
        self.index = index;
    }

    /// The number of characters in the input.
    pub fn len(&self) -> (n: usize)
        ensures
            n == self.seq().len(),
    {
        self.chars.len()
    }

    /// The current index, as a value.
    pub(crate) fn pos(&self) -> (i: usize)
        ensures
            i == self.idx(),
    {
        self.index
    }
}

} // verus!
