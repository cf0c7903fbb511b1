//! Typed reading of entry text: the standard decimal integer syntax, the two
//! boolean words, and plain strings. `IniValue` is the interface the typed
//! accessors of `Ini` go through; every impl is proved against the spec-level
//! syntax `int_of_text` or its own two-line rule.

use vstd::prelude::*;
use crate::text::to_chars;

verus! {

/// A decimal digit.
pub open spec fn is_digit(c: char) -> bool {
    '0' as u32 <= c as u32 && c as u32 <= '9' as u32
}

/// The value of one digit.
pub open spec fn digit_val(c: char) -> int {
    c as u32 - '0' as u32
}

/// Every character of `s` is a digit.
pub open spec fn all_digits(s: Seq<char>) -> bool {
    forall|i: int| 0 <= i < s.len() ==> is_digit(#[trigger] s[i])
}

/// The number denoted by a digit string, most significant first.
pub open spec fn digits_val(s: Seq<char>) -> int
    decreases s.len(),
{
    if s.len() == 0 {
        0
    } else {
        digits_val(s.drop_last()) * 10 + digit_val(s.last())
    }
}

/// The integer denoted by `s` under the standard syntax: an optional sign
/// (`'-'` only where `signed`) followed by one or more digits; `None` for
/// anything else. This is the syntax `FromStr` gives the integer types.
pub open spec fn int_of_text(s: Seq<char>, signed: bool) -> Option<int> {
    if s.len() > 0 && (s[0] == '+' || (signed && s[0] == '-')) {
        let body = s.drop_first();
        if body.len() > 0 && all_digits(body) {
            Some(
                if s[0] == '-' {
                    -digits_val(body)
                } else {
                    digits_val(body)
                },
            )
        } else {
            None
        }
    } else if s.len() > 0 && all_digits(s) {
        Some(digits_val(s))
    } else {
        None
    }
}

/// A digit string denotes a number that is not negative.
pub proof fn lemma_digits_val_nonneg(s: Seq<char>)
    requires
        all_digits(s),
    ensures
        digits_val(s) >= 0,
    decreases s.len(),
{
    if s.len() > 0 {
        assert(forall|i: int| 0 <= i < s.drop_last().len() ==> s.drop_last()[i] == s[i]);
        lemma_digits_val_nonneg(s.drop_last());
    }
}

/// A prefix of a digit string denotes no more than the whole.
pub proof fn lemma_digits_val_prefix(s: Seq<char>, k: int)
    requires
        all_digits(s),
        0 <= k <= s.len(),
    ensures
        digits_val(s.take(k)) <= digits_val(s),
    decreases s.len(),
{
    if k < s.len() {
        let t = s.drop_last();
        assert(forall|i: int| 0 <= i < t.len() ==> t[i] == s[i]);
        assert(s.take(k) =~= t.take(k));
        lemma_digits_val_prefix(t, k);
        lemma_digits_val_nonneg(t);
    } else {
        assert(s.take(k) =~= s);
    }
}

/// The digits `v[lo..hi]` as a `u64`: `Some` exactly when the range is a
/// nonempty digit string whose value fits.
fn parse_digits_u64(v: &Vec<char>, lo: usize, hi: usize) -> (r: Option<u64>)
    requires
        lo <= hi <= v@.len(),
    ensures
        ({
            let s = v@.subrange(lo as int, hi as int);
            match r {
                Some(x) => s.len() > 0 && all_digits(s) && x == digits_val(s),
                None => s.len() == 0 || !all_digits(s) || digits_val(s) > u64::MAX,
            }
        }),
{
    let ghost s = v@.subrange(lo as int, hi as int);
    if lo == hi {
        return None;
    }
    let mut acc: u64 = 0;
    let mut i: usize = lo;
    while i < hi
        invariant
            lo <= i <= hi <= v@.len(),
            s == v@.subrange(lo as int, hi as int),
            all_digits(s.take(i - lo)),
            acc == digits_val(s.take(i - lo)),
        decreases hi - i,
    {
        let c = v[i];
        let u = c as u32;
        proof {
            assert(s[i - lo] == v@[i as int]);
        }
        if u < '0' as u32 || u > '9' as u32 {
            return None;
        }
        let d: u64 = (u - '0' as u32) as u64;
        let wide: u128 = acc as u128 * 10 + d as u128;
        proof {
            assert(s.take(i - lo + 1).drop_last() =~= s.take(i - lo));
            assert(s.take(i - lo + 1).last() == s[i - lo]);
            assert(all_digits(s.take(i - lo + 1)));
        }
        if wide > u64::MAX as u128 {
            // the value can only grow with more digits
            proof {
                assert(digits_val(s.take(i - lo + 1)) > u64::MAX);
                if all_digits(s) {
                    lemma_digits_val_prefix(s, i - lo + 1);
                }
            }
            return None;
        }
        acc = wide as u64;
        i += 1;
    }
    proof {
        assert(s.take(hi - lo) =~= s);
    }
    Some(acc)
}

/// `s` read as an optional sign and a magnitude: `Some((negative, mag))`
/// when `s` follows the integer syntax and its magnitude fits a `u64`.
fn parse_sign_digits(s: &str, signed: bool) -> (r: Option<(bool, u64)>)
    ensures
        ({
            let ov = int_of_text(s@, signed);
            match r {
                Some(p) => ov == Some(
                    if p.0 {
                        -(p.1 as int)
                    } else {
                        p.1 as int
                    },
                ) && (signed || !p.0),
                None => match ov {
                    Some(x) => x > u64::MAX || x < -(u64::MAX as int),
                    None => true,
                },
            }
        }),
{
    let v = to_chars(s);
    let n = v.len();
    let neg: bool;
    let start: usize;
    if n > 0 && v[0] == '+' {
        neg = false;
        start = 1;
    } else if signed && n > 0 && v[0] == '-' {
        neg = true;
        start = 1;
    } else {
        neg = false;
        start = 0;
    }
    proof {
        if start == 1 {
            assert(s@.drop_first() =~= s@.subrange(1, n as int));
        } else {
            assert(s@ =~= s@.subrange(0, n as int));
        }
    }
    match parse_digits_u64(&v, start, n) {
        Some(m) => {
            proof {
                lemma_digits_val_nonneg(s@.subrange(start as int, n as int));
            }
            Some((neg, m))
        },
        None => {
            proof {
                let body = s@.subrange(start as int, n as int);
                if body.len() > 0 && all_digits(body) {
                    lemma_digits_val_nonneg(body);
                }
            }
            None
        },
    }
}

/// Under the unsigned syntax no text denotes a negative number.
pub proof fn lemma_unsigned_nonneg(s: Seq<char>)
    ensures
        match int_of_text(s, false) {
            Some(x) => x >= 0,
            None => true,
        },
{
    if s.len() > 0 && s[0] == '+' {
        let body = s.drop_first();
        if body.len() > 0 && all_digits(body) {
            lemma_digits_val_nonneg(body);
        }
    } else if s.len() > 0 && all_digits(s) {
        lemma_digits_val_nonneg(s);
    }
}

/// A type whose values can be read from the text of an entry.
pub trait IniValue: Sized {
    /// Whether `s` parses as a value of this type.
    spec fn accepts(s: Seq<char>) -> bool;

    /// Whether `v` is the value that `s` denotes.
    spec fn denotes(s: Seq<char>, v: &Self) -> bool;

    /// Parse `s`: `Some` exactly on accepted text, carrying its denotation.
    fn from_text(s: &str) -> (r: Option<Self>)
        ensures
            r is Some <==> Self::accepts(s@),
            match r {
                Some(v) => Self::denotes(s@, &v),
                None => true,
            },
    ;
}

impl IniValue for bool {
    open spec fn accepts(s: Seq<char>) -> bool {
        s == "true"@ || s == "false"@
    }

    open spec fn denotes(s: Seq<char>, v: &bool) -> bool {
        if s == "true"@ {
            *v == true
        } else if s == "false"@ {
            *v == false
        } else {
            false
        }
    }

    fn from_text(s: &str) -> (r: Option<bool>) {
        proof {
            reveal_strlit("true");
            reveal_strlit("false");
        }
        let v = to_chars(s);
        if v.len() == 4 && v[0] == 't' && v[1] == 'r' && v[2] == 'u' && v[3] == 'e' {
            proof {
                assert(s@ =~= "true"@);
            }
            Some(true)
        } else if v.len() == 5 && v[0] == 'f' && v[1] == 'a' && v[2] == 'l' && v[3] == 's' && v[4]
            == 'e' {
            proof {
                assert(s@ =~= "false"@);
            }
            Some(false)
        } else {
            None
        }
    }
}

impl IniValue for String {
    open spec fn accepts(s: Seq<char>) -> bool {
        true
    }

    open spec fn denotes(s: Seq<char>, v: &String) -> bool {
        v@ == s
    }

    fn from_text(s: &str) -> (r: Option<String>) {
        Some(String::from_str(s))
    }
}

impl IniValue for u8 {
    open spec fn accepts(s: Seq<char>) -> bool {
        match int_of_text(s, false) {
            Some(x) => x <= u8::MAX,
            None => false,
        }
    }

    open spec fn denotes(s: Seq<char>, v: &u8) -> bool {
        int_of_text(s, false) == Some(*v as int)
    }

    fn from_text(s: &str) -> (r: Option<u8>) {
        proof {
            lemma_unsigned_nonneg(s@);
        }
        match parse_sign_digits(s, false) {
            Some((_, m)) => if m <= u8::MAX as u64 {
                Some(m as u8)
            } else {
                None
            },
            None => None,
        }
    }
}

impl IniValue for u16 {
    open spec fn accepts(s: Seq<char>) -> bool {
        match int_of_text(s, false) {
            Some(x) => x <= u16::MAX,
            None => false,
        }
    }

    open spec fn denotes(s: Seq<char>, v: &u16) -> bool {
        int_of_text(s, false) == Some(*v as int)
    }

    fn from_text(s: &str) -> (r: Option<u16>) {
        proof {
            lemma_unsigned_nonneg(s@);
        }
        match parse_sign_digits(s, false) {
            Some((_, m)) => if m <= u16::MAX as u64 {
                Some(m as u16)
            } else {
                None
            },
            None => None,
        }
    }
}

impl IniValue for u32 {
    open spec fn accepts(s: Seq<char>) -> bool {
        match int_of_text(s, false) {
            Some(x) => x <= u32::MAX,
            None => false,
        }
    }

    open spec fn denotes(s: Seq<char>, v: &u32) -> bool {
        int_of_text(s, false) == Some(*v as int)
    }

    fn from_text(s: &str) -> (r: Option<u32>) {
        proof {
            lemma_unsigned_nonneg(s@);
        }
        match parse_sign_digits(s, false) {
            Some((_, m)) => if m <= u32::MAX as u64 {
                Some(m as u32)
            } else {
                None
            },
            None => None,
        }
    }
}

impl IniValue for u64 {
    open spec fn accepts(s: Seq<char>) -> bool {
        match int_of_text(s, false) {
            Some(x) => x <= u64::MAX,
            None => false,
        }
    }

    open spec fn denotes(s: Seq<char>, v: &u64) -> bool {
        int_of_text(s, false) == Some(*v as int)
    }

    fn from_text(s: &str) -> (r: Option<u64>) {
        proof {
            lemma_unsigned_nonneg(s@);
        }
        match parse_sign_digits(s, false) {
            Some((_, m)) => Some(m),
            None => None,
        }
    }
}

impl IniValue for usize {
    open spec fn accepts(s: Seq<char>) -> bool {
        match int_of_text(s, false) {
            Some(x) => x <= usize::MAX,
            None => false,
        }
    }

    open spec fn denotes(s: Seq<char>, v: &usize) -> bool {
        int_of_text(s, false) == Some(*v as int)
    }

    fn from_text(s: &str) -> (r: Option<usize>) {
        proof {
            lemma_unsigned_nonneg(s@);
        }
        match parse_sign_digits(s, false) {
            Some((_, m)) => if m <= usize::MAX as u64 {
                Some(m as usize)
            } else {
                None
            },
            None => None,
        }
    }
}

impl IniValue for i32 {
    open spec fn accepts(s: Seq<char>) -> bool {
        match int_of_text(s, true) {
            Some(x) => i32::MIN <= x <= i32::MAX,
            None => false,
        }
    }

    open spec fn denotes(s: Seq<char>, v: &i32) -> bool {
        int_of_text(s, true) == Some(*v as int)
    }

    fn from_text(s: &str) -> (r: Option<i32>) {
        match parse_sign_digits(s, true) {
            Some((neg, m)) => if neg {
                if m <= i32::MAX as u64 + 1 {
                    Some((-(m as i64)) as i32)
                } else {
                    None
                }
            } else {
                if m <= i32::MAX as u64 {
                    Some(m as i32)
                } else {
                    None
                }
            },
            None => None,
        }
    }
}

impl IniValue for i64 {
    open spec fn accepts(s: Seq<char>) -> bool {
        match int_of_text(s, true) {
            Some(x) => i64::MIN <= x <= i64::MAX,
            None => false,
        }
    }

    open spec fn denotes(s: Seq<char>, v: &i64) -> bool {
        int_of_text(s, true) == Some(*v as int)
    }

    fn from_text(s: &str) -> (r: Option<i64>) {
        match parse_sign_digits(s, true) {
            Some((neg, m)) => if neg {
                if m <= i64::MAX as u64 {
                    Some(-(m as i64))
                } else if m == i64::MAX as u64 + 1 {
                    Some(i64::MIN)
                } else {
                    None
                }
            } else {
                if m <= i64::MAX as u64 {
                    Some(m as i64)
                } else {
                    None
                }
            },
            None => None,
        }
    }
}

} // verus!
