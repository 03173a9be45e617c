//! Reading the fields of a comma-separated record: splitting, decimal
//! integers, and fixed-point prices written with a decimal point.
use vstd::prelude::*;
use vstd::string::StringSliceAdditionalSpecFns;

verus! {

/// The pieces of `s` between the occurrences of `sep`, in order; text without
/// `sep` is one piece, and a trailing `sep` ends with an empty piece.
pub open spec fn split_on(s: Seq<char>, sep: char) -> Seq<Seq<char>>
    decreases s.len(),
{
    if s.len() == 0 {
        seq![Seq::empty()]
    } else {
        let rest = split_on(s.drop_last(), sep);
        if s.last() == sep {
            rest.push(Seq::empty())
        } else {
            rest.update(rest.len() - 1, rest.last().push(s.last()))
        }
    }
}

/// The views of the strings in `v`.
pub open spec fn views(v: Seq<String>) -> Seq<Seq<char>> {
    v.map_values(|f: String| f@)
}

/// Relies on `str::split` with a `char` pattern: the pieces between the
/// separators, in order, each copied into a `String`.
#[verifier::external_body]
pub(crate) fn split_fields(s: &str) -> (r: Vec<String>)
    ensures
        views(r@) == split_on(s@, ','),
{
    s.split(',').map(String::from).collect()
}

pub open spec fn is_digit(b: u8) -> bool {
    48 <= b <= 57
}

pub open spec fn all_digits(s: Seq<u8>) -> bool {
    forall|i: int| 0 <= i < s.len() ==> is_digit(#[trigger] s[i])
}

/// The value of a run of decimal digits.
pub open spec fn digits_value(s: Seq<u8>) -> int
    decreases s.len(),
{
    if s.len() == 0 {
        0
    } else {
        digits_value(s.drop_last()) * 10 + (s.last() - 48)
    }
}

/// What `str::parse::<i64>` gives for the text whose UTF-8 bytes are `s`: an
/// optional `+` or `-`, then one or more decimal digits, whose value must fit.
pub open spec fn parse_i64_spec(s: Seq<u8>) -> Option<i64> {
    let neg = s.len() > 0 && s[0] == 45;
    let d = if s.len() > 0 && (s[0] == 45 || s[0] == 43) {
        s.drop_first()
    } else {
        s
    };
    if d.len() == 0 || !all_digits(d) {
        None
    } else {
        let v = if neg {
            -digits_value(d)
        } else {
            digits_value(d)
        };
        if i64::MIN <= v <= i64::MAX {
            Some(v as i64)
        } else {
            None
        }
    }
}

/// What `str::parse::<u64>` gives for the text whose UTF-8 bytes are `s`: an
/// optional `+`, then one or more decimal digits, whose value must fit.
pub open spec fn parse_u64_spec(s: Seq<u8>) -> Option<u64> {
    let d = if s.len() > 0 && s[0] == 43 {
        s.drop_first()
    } else {
        s
    };
    if d.len() == 0 || !all_digits(d) || digits_value(d) > u64::MAX {
        None
    } else {
        Some(digits_value(d) as u64)
    }
}

/// `s` without its decimal points: a fixed-point price as an integer.
pub open spec fn without_dots(s: Seq<u8>) -> Seq<u8> {
    s.filter(|b: u8| b != 46)
}

proof fn lemma_digits_grow(s: Seq<u8>, k: int)
    requires
        all_digits(s),
        0 <= k <= s.len(),
    ensures
        digits_value(s) >= digits_value(s.subrange(0, k)),
        digits_value(s) >= 0,
    decreases s.len(),
{
    if s.len() > 0 {
        let t = s.drop_last();
        assert(all_digits(t)) by {
            assert forall|i: int| 0 <= i < t.len() implies is_digit(#[trigger] t[i]) by {
                assert(t[i] == s[i]);
            }
        }
        assert(is_digit(s[s.len() - 1]));
        if k < s.len() {
            assert(s.subrange(0, k) =~= t.subrange(0, k));
            lemma_digits_grow(t, k);
        } else {
            assert(s.subrange(0, k) =~= s);
            lemma_digits_grow(t, 0);
        }
    }
}

/// The value of the digits `b[start..]`, when they are one or more decimal
/// digits worth at most `2^64`.
fn digits_from(b: &[u8], start: usize) -> (r: Option<u128>)
    requires
        start <= b@.len(),
    ensures
        ({
            let d = b@.subrange(start as int, b@.len() as int);
            &&& r is Some <==> d.len() > 0 && all_digits(d) && digits_value(d) <= 0x1_0000_0000_0000_0000
            &&& r is Some ==> r->0 == digits_value(d)
        }),
{
    let n = b.len();
    if start >= n {
        return None;
    }
    let mut acc: u128 = 0;
    let mut i: usize = start;
    while i < n
        invariant
            start <= i <= n,
            n == b@.len(),
            all_digits(b@.subrange(start as int, i as int)),
            acc == digits_value(b@.subrange(start as int, i as int)),
            acc <= 0x1_0000_0000_0000_0000,
        decreases n - i,
    {
        let c = b[i];
        let ghost pre = b@.subrange(start as int, i as int);
        let ghost all = b@.subrange(start as int, n as int);
        if c < 48 || c > 57 {
            proof {
                assert(all[i - start] == c);
            }
            return None;
        }
        proof {
            assert(b@.subrange(start as int, i + 1) =~= pre.push(c));
            assert(pre.push(c).drop_last() =~= pre);
        }
        acc = acc * 10 + (c - 48) as u128;
        i = i + 1;
        if acc > 0x1_0000_0000_0000_0000 {
            proof {
                let cur = b@.subrange(start as int, i as int);
                if all_digits(all) {
                    assert(all.subrange(0, i - start) =~= cur);
                    lemma_digits_grow(all, i - start);
                }
            }
            return None;
        }
        proof {
            let cur = b@.subrange(start as int, i as int);
            assert forall|j: int| 0 <= j < cur.len() implies is_digit(#[trigger] cur[j]) by {
                if j < pre.len() {
                    assert(cur[j] == pre[j]);
                }
            }
        }
    }
    proof {
        assert(b@.subrange(start as int, n as int).len() > 0);
    }
    Some(acc)
}

/// Reads a decimal `i64` as `str::parse` does.
pub fn parse_i64(b: &[u8]) -> (r: Option<i64>)
    ensures
        r == parse_i64_spec(b@),
{
    let n = b.len();
    let neg = n > 0 && b[0] == 45;
    let start: usize = if n > 0 && (b[0] == 45 || b[0] == 43) {
        1
    } else {
        0
    };
    proof {
        if start == 1 {
            assert(b@.subrange(1, n as int) =~= b@.drop_first());
        } else {
            assert(b@.subrange(0, n as int) =~= b@);
        }
    }
    match digits_from(b, start) {
        None => None,
        Some(m) => {
            if neg {
                if m <= 0x8000_0000_0000_0000 {
                    Some((0i128 - m as i128) as i64)
                } else {
                    None
                }
            } else {
                if m <= 0x7fff_ffff_ffff_ffff {
                    Some(m as i64)
                } else {
                    None
                }
            }
        },
    }
}

/// Reads a decimal `u64` as `str::parse` does.
pub fn parse_u64(b: &[u8]) -> (r: Option<u64>)
    ensures
        r == parse_u64_spec(b@),
{
    let n = b.len();
    let start: usize = if n > 0 && b[0] == 43 {
        1
    } else {
        0
    };
    proof {
        if start == 1 {
            assert(b@.subrange(1, n as int) =~= b@.drop_first());
        } else {
            assert(b@.subrange(0, n as int) =~= b@);
        }
    }
    match digits_from(b, start) {
        None => None,
        Some(m) => {
            if m <= 0xffff_ffff_ffff_ffff {
                Some(m as u64)
            } else {
                None
            }
        },
    }
}

/// `b` with its decimal points left out.
pub fn strip_dots(b: &[u8]) -> (r: Vec<u8>)
    ensures
        r@ == without_dots(b@),
{
    let mut r: Vec<u8> = Vec::new();
    let n = b.len();
    let mut i: usize = 0;
    while i < n
        invariant
            i <= n,
            n == b@.len(),
            r@ == without_dots(b@.subrange(0, i as int)),
        decreases n - i,
    {
        proof {
            assert(b@.subrange(0, i + 1) =~= b@.subrange(0, i as int).push(b@[i as int]));
            b@.subrange(0, i as int).lemma_filter_push(b@[i as int], |c: u8| c != 46);
        }
        if b[i] != 46 {
            r.push(b[i]);
        }
        i = i + 1;
    }
    proof {
        assert(b@.subrange(0, n as int) =~= b@);
    }
    r
}

/// Reads a fixed-point number written with a decimal point, such as
/// `213.00000`, as the integer its digits spell, `21300000`.
pub fn parse_fixed(s: &str) -> (r: Option<i64>)
    ensures
        r == parse_i64_spec(without_dots(s.spec_bytes())),
{
    let digits = strip_dots(s.as_bytes());
    parse_i64(digits.as_slice())
}

/// Whether the text `s` is the one byte `c`.
pub fn is_byte(s: &str, c: u8) -> (r: bool)
    ensures
        r == (s.spec_bytes() == seq![c]),
{
    let b = s.as_bytes();
    if b.len() == 1 && b[0] == c {
        assert(b@ =~= seq![c]);
        true
    } else {
        false
    }
}

} // verus!
