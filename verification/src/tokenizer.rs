//! The escape-aware list tokenizer: splits a string at unescaped separator
//! characters, trims each token, keeps escapes in the output, and yields no
//! token after a trailing separator. `tokenize` is the specification; the
//! `Tokenizer` cursor is proved to yield exactly its tokens.

use vstd::prelude::*;
use crate::text::{trim, trim_range, to_chars, string_of_range};

verus! {

/// Position of the first unescaped occurrence of `sep` in `s`, or `-1`: a
/// backslash escapes the character after it, which is never a separator, and
/// a final lone backslash escapes nothing.
pub open spec fn find_sep(s: Seq<char>, sep: char) -> int
    decreases s.len(),
{
    if s.len() == 0 {
        -1
    } else if s[0] == sep {
        0
    } else if s[0] == '\\' {
        if s.len() == 1 {
            -1
        } else {
            let r = find_sep(s.skip(2), sep);
            if r < 0 {
                -1
            } else {
                2 + r
            }
        }
    } else {
        let r = find_sep(s.skip(1), sep);
        if r < 0 {
            -1
        } else {
            1 + r
        }
    }
}

/// The tokens of `s`: the text is split at each unescaped `sep`, every piece
/// is trimmed of surrounding whitespace with its escapes kept, and a
/// trailing separator yields no final empty token.
pub open spec fn tokenize(s: Seq<char>, sep: char) -> Seq<Seq<char>>
    decreases s.len(),
{
    if s.len() == 0 {
        Seq::<Seq<char>>::empty()
    } else {
        let i = find_sep(s, sep);
        if 0 <= i < s.len() {
            seq![trim(s.take(i))] + tokenize(s.skip(i + 1), sep)
        } else {
            seq![trim(s)]
        }
    }
}

/// First unescaped occurrence of `sep` in `v` at or after `start`.
fn find_unescaped(v: &Vec<char>, start: usize, sep: char) -> (r: Option<usize>)
    requires
        start <= v@.len(),
    ensures
        match r {
            Some(j) => start <= j < v@.len() && find_sep(v@.skip(start as int), sep) == j - start,
            None => find_sep(v@.skip(start as int), sep) == -1,
        },
{
    let n = v.len();
    let mut i: usize = start;
    while i < n
        invariant
            start <= i <= n == v@.len(),
            find_sep(v@.skip(i as int), sep) >= 0 ==> find_sep(v@.skip(start as int), sep) == i
                - start + find_sep(v@.skip(i as int), sep),
            find_sep(v@.skip(i as int), sep) < 0 ==> find_sep(v@.skip(start as int), sep) < 0,
        decreases n - i,
    {
        let ghost rem = v@.skip(i as int);
        proof {
            assert(rem[0] == v@[i as int]);
        }
        let c = v[i];
        if c == sep {
            return Some(i);
        } else if c == '\\' && i + 1 < n {
            proof {
                assert(rem.skip(2) =~= v@.skip(i + 2));
            }
            i += 2;
        } else {
            proof {
                if c == '\\' {
                    assert(rem.len() == 1);
                } else {
                    assert(rem.skip(1) =~= v@.skip(i + 1));
                }
            }
            i += 1;
        }
    }
    proof {
        assert(v@.skip(n as int) =~= Seq::<char>::empty());
    }
    None
}

/// A cursor yielding the tokens of a string, in order.
pub struct Tokenizer {
    chars: Vec<char>,
    sep: char,
    index: usize,
}

impl Tokenizer {
    /// The separator this tokenizer splits at.
    pub closed spec fn separator(&self) -> char {
        self.sep
    }

    /// The tokens not yet yielded.
    pub closed spec fn remaining(&self) -> Seq<Seq<char>> {
        if self.index <= self.chars@.len() {
            tokenize(self.chars@.skip(self.index as int), self.sep)
        } else {
            Seq::<Seq<char>>::empty()
        }
    }

    /// A tokenizer over `string` with the default separator `','`.
    pub fn new(string: &str) -> (t: Tokenizer)
        ensures
            t.remaining() == tokenize(string@, ','),
            t.separator() == ',',
    {
        Tokenizer::with_sep(string, ',')
    }

    /// A tokenizer over `string` splitting at `sep`.
    pub fn with_sep(string: &str, sep: char) -> (t: Tokenizer)
        ensures
            t.remaining() == tokenize(string@, sep),
            t.separator() == sep,
    {
        let chars = to_chars(string);
        let t = Tokenizer { chars, sep, index: 0 };
        proof {
            assert(t.chars@.skip(0) =~= string@);
        }
        t
    }

    /// The next token, if one is left.
    pub fn next(&mut self) -> (r: Option<String>)
        ensures
            final(self).separator() == old(self).separator(),
            old(self).remaining().len() == 0 ==> r is None && final(self).remaining() == old(
                self,
            ).remaining(),
            old(self).remaining().len() > 0 ==> match r {
                Some(t) => t@ == old(self).remaining()[0] && final(self).remaining() == old(
                    self,
                ).remaining().drop_first(),
                None => false,
            },
    {
        let n = self.chars.len();
        if self.index >= n {
            proof {
                if self.index as int <= self.chars@.len() {
                    assert(self.chars@.skip(self.index as int) =~= Seq::<char>::empty());
                }
            }
            return None;
        }
        let ghost rest = self.chars@.skip(self.index as int);
        match find_unescaped(&self.chars, self.index, self.sep) {
            Some(j) => {
                proof {
                    assert(rest.take(j - self.index) =~= self.chars@.subrange(
                        self.index as int,
                        j as int,
                    ));
                    assert(rest.skip(j - self.index + 1) =~= self.chars@.skip(j + 1));
                }
                let (a, b) = trim_range(&self.chars, self.index, j);
                let tok = string_of_range(&self.chars, a, b);
                self.index = j + 1;
                Some(tok)
            },
            None => {
                proof {
                    assert(rest =~= self.chars@.subrange(self.index as int, n as int));
                    assert(self.chars@.skip(n as int) =~= Seq::<char>::empty());
                }
                let (a, b) = trim_range(&self.chars, self.index, n);
                let tok = string_of_range(&self.chars, a, b);
                self.index = n;
                Some(tok)
            },
        }
    }
}

} // verus!
