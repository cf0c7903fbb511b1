//! The line parser: classifies one line of input as blank, section header,
//! key/value entry, or malformed. `parse_line_spec` is the grammar, stated
//! over character sequences; `parse_line` is proved to decide it.

use vstd::prelude::*;
use crate::text::{find_ch, trim, to_chars, trim_range, find_char_in, string_of_range};

verus! {

/// What one line of input means.
#[derive(Debug)]
pub enum Parsed {
    /// A malformed line, with its diagnostic message.
    Error(String),
    /// A blank or fully commented line.
    Empty,
    /// A `[name]` header.
    Section(String),
    /// A `key = value` entry.
    Value(String, String),
}

/// Spec-level classification of one line, over character sequences.
pub enum LineKind {
    Bad(Seq<char>),
    Blank,
    Header(Seq<char>),
    Pair(Seq<char>, Seq<char>),
}

/// The line with its comment discarded and the rest trimmed: everything from
/// the first `';'` on is dropped, then surrounding whitespace.
pub open spec fn line_content(line: Seq<char>) -> Seq<char> {
    let i = find_ch(line, ';');
    if i >= 0 {
        trim(line.take(i))
    } else {
        trim(line)
    }
}

/// A section-bracket character.
pub open spec fn is_bracket(c: char) -> bool {
    c == '[' || c == ']'
}

/// `s` without its leading bracket characters.
pub open spec fn brk_start(s: Seq<char>) -> Seq<char>
    decreases s.len(),
{
    if s.len() > 0 && is_bracket(s[0]) {
        brk_start(s.drop_first())
    } else {
        s
    }
}

/// `s` without its trailing bracket characters.
pub open spec fn brk_end(s: Seq<char>) -> Seq<char>
    decreases s.len(),
{
    if s.len() > 0 && is_bracket(s.last()) {
        brk_end(s.drop_last())
    } else {
        s
    }
}

/// `s` without leading and trailing bracket characters: the section name
/// inside a `[name]` header.
pub open spec fn trim_brackets(s: Seq<char>) -> Seq<char> {
    brk_end(brk_start(s))
}

/// The grammar of one line. With `c` the comment-stripped, trimmed content:
/// empty `c` is a blank; `c` opening with `'['` must close with `']'` and
/// names a section; otherwise `c` must contain `'='`, splitting at the first
/// one into a nonempty trimmed key and a trimmed value.
pub open spec fn parse_line_spec(line: Seq<char>) -> LineKind {
    let c = line_content(line);
    if c.len() == 0 {
        LineKind::Blank
    } else if c[0] == '[' {
        if c.last() == ']' {
            LineKind::Header(trim_brackets(c))
        } else {
            LineKind::Bad("incorrect section syntax"@)
        }
    } else if find_ch(c, '=') >= 0 {
        let k = trim(c.take(find_ch(c, '=')));
        let v = trim(c.skip(find_ch(c, '=') + 1));
        if k.len() == 0 {
            LineKind::Bad("empty key"@)
        } else {
            LineKind::Pair(k, v)
        }
    } else {
        LineKind::Bad("incorrect syntax"@)
    }
}

/// The runtime result `r` carries exactly the classification `k`.
pub open spec fn parsed_is(r: Parsed, k: LineKind) -> bool {
    match r {
        Parsed::Empty => k is Blank,
        Parsed::Section(n) => k matches LineKind::Header(nn) && n@ == nn,
        Parsed::Value(a, b) => k matches LineKind::Pair(aa, bb) && a@ == aa && b@ == bb,
        Parsed::Error(m) => k matches LineKind::Bad(mm) && m@ == mm,
    }
}

/// `v[lo..hi]` without surrounding bracket characters, as an index range.
fn brk_trim_range(v: &Vec<char>, lo: usize, hi: usize) -> (r: (usize, usize))
    requires
        lo <= hi <= v@.len(),
    ensures
        lo <= r.0 <= r.1 <= hi,
        v@.subrange(r.0 as int, r.1 as int) == trim_brackets(v@.subrange(lo as int, hi as int)),
{
    let ghost s = v@.subrange(lo as int, hi as int);
    let mut a: usize = lo;
    while a < hi && (v[a] == '[' || v[a] == ']')
        invariant
            lo <= a <= hi <= v@.len(),
            s == v@.subrange(lo as int, hi as int),
            brk_start(s) == brk_start(v@.subrange(a as int, hi as int)),
        decreases hi - a,
    {
        proof {
            assert(v@.subrange(a as int, hi as int).drop_first() =~= v@.subrange(
                a + 1,
                hi as int,
            ));
        }
        a += 1;
    }
    proof {
        assert(brk_start(v@.subrange(a as int, hi as int)) == v@.subrange(a as int, hi as int));
    }
    let mut b: usize = hi;
    while b > a && (v[b - 1] == '[' || v[b - 1] == ']')
        invariant
            lo <= a <= b <= hi <= v@.len(),
            brk_start(s) == v@.subrange(a as int, hi as int),
            brk_end(v@.subrange(a as int, hi as int)) == brk_end(v@.subrange(a as int, b as int)),
        decreases b - a,
    {
        proof {
            assert(v@.subrange(a as int, b as int).drop_last() =~= v@.subrange(a as int, b - 1));
        }
        b -= 1;
    }
    proof {
        assert(brk_end(v@.subrange(a as int, b as int)) == v@.subrange(a as int, b as int));
    }
    (a, b)
}

/// Classify one line, given as its characters.
pub(crate) fn parse_line_chars(v: &Vec<char>) -> (r: Parsed)
    ensures
        parsed_is(r, parse_line_spec(v@)),
{
    let n = v.len();
    let end: usize = match find_char_in(v, 0, n, ';') {
        Some(j) => j,
        None => n,
    };
    proof {
        assert(v@.subrange(0, n as int) =~= v@);
        if find_ch(v@, ';') >= 0 {
            assert(v@.take(find_ch(v@, ';')) =~= v@.subrange(0, end as int));
        } else {
            assert(v@ =~= v@.subrange(0, end as int));
        }
    }
    let (lo, hi) = trim_range(v, 0, end);
    let ghost c = line_content(v@);
    proof {
        assert(c == v@.subrange(lo as int, hi as int));
    }
    if lo == hi {
        proof {
            assert(c.len() == 0);
        }
        return Parsed::Empty;
    }
    proof {
        assert(c[0] == v@[lo as int]);
        assert(c.last() == v@[hi - 1]);
    }
    if v[lo] == '[' {
        if v[hi - 1] == ']' {
            let (a, b) = brk_trim_range(v, lo, hi);
            let name = string_of_range(v, a, b);
            return Parsed::Section(name);
        } else {
            return Parsed::Error(String::from_str("incorrect section syntax"));
        }
    }
    match find_char_in(v, lo, hi, '=') {
        Some(e) => {
            proof {
                assert(c.take(find_ch(c, '=')) =~= v@.subrange(lo as int, e as int));
                assert(c.skip(find_ch(c, '=') + 1) =~= v@.subrange(e + 1, hi as int));
            }
            let (ka, kb) = trim_range(v, lo, e);
            if ka == kb {
                Parsed::Error(String::from_str("empty key"))
            } else {
                let (va, vb) = trim_range(v, e + 1, hi);
                let key = string_of_range(v, ka, kb);
                let value = string_of_range(v, va, vb);
                Parsed::Value(key, value)
            }
        },
        None => Parsed::Error(String::from_str("incorrect syntax")),
    }
}

/// Classify one line of text: the four cases of `parse_line_spec`.
pub fn parse_line(line: &str) -> (r: Parsed)
    ensures
        parsed_is(r, parse_line_spec(line@)),
{
    let v = to_chars(line);
    parse_line_chars(&v)
}

} // verus!
