//! Character-level helpers for working with string slices.

use vstd::prelude::*;

verus! {

use vstd::string::StrSliceExecFns;

/// True iff the two string slices hold the same characters.
pub fn str_eq(a: &str, b: &str) -> (r: bool)
    ensures
        r == (a@ == b@),
{
    let alen = a.unicode_len();
    let blen = b.unicode_len();
    if alen != blen {
        return false;
    }
    let mut i: usize = 0;
    while i < alen
        invariant
            a@.len() == alen,
            b@.len() == blen,
            alen == blen,
            0 <= i <= alen,
            forall|j: int| 0 <= j < i ==> a@[j] == b@[j],
        decreases alen - i,
    {
        if a.get_char(i) != b.get_char(i) {
            return false;
        }
        i += 1;
    }
    proof {
        assert(a@ =~= b@);
    }
    true
}

/// Index of the first occurrence of `x` in `s`, if any.
pub open spec fn find_index<T>(s: Seq<T>, x: T) -> Option<int>
    decreases s.len(),
{
    if s.len() == 0 {
        None
    } else if s[0] == x {
        Some(0int)
    } else {
        match find_index(s.skip(1), x) {
            Some(i) => Some(i + 1),
            None => None,
        }
    }
}

/// `find_index` returns the position of the first occurrence, and `None`
/// exactly when there is no occurrence.
pub proof fn lemma_find_index<T>(s: Seq<T>, x: T)
    ensures
        match find_index(s, x) {
            Some(i) => 0 <= i < s.len() && s[i] == x && (forall|j: int| 0 <= j < i ==> s[j] != x),
            None => forall|j: int| 0 <= j < s.len() ==> s[j] != x,
        },
    decreases s.len(),
{
    if s.len() > 0 && s[0] != x {
        lemma_find_index(s.skip(1), x);
        assert(forall|j: int| 1 <= j < s.len() ==> s[j] == s.skip(1)[j - 1]);
    }
}

/// Position of the first character `x` of `s`, if any.
pub fn find_char(s: &str, x: char) -> (r: Option<usize>)
    ensures
        match r {
            Some(i) => find_index(s@, x) == Some(i as int),
            None => find_index(s@, x) is None,
        },
{
    proof {
        lemma_find_index(s@, x);
    }
    let len = s.unicode_len();
    let mut i: usize = 0;
    while i < len
        invariant
            len == s@.len(),
            0 <= i <= len,
            forall|j: int| 0 <= j < i ==> s@[j] != x,
        decreases len - i,
    {
        if s.get_char(i) == x {
            proof {
                lemma_find_index(s@, x);
            }
            return Some(i);
        }
        i += 1;
    }
    None
}

/// Index of the first position of `s` where a space is immediately followed
/// by a colon, if any.
pub open spec fn find_space_colon(s: Seq<char>) -> Option<int>
    decreases s.len(),
{
    if s.len() < 2 {
        None
    } else if s[0] == ' ' && s[1] == ':' {
        Some(0int)
    } else {
        match find_space_colon(s.skip(1)) {
            Some(i) => Some(i + 1),
            None => None,
        }
    }
}

/// `find_space_colon` returns the first position of the two-character
/// sequence `" :"`, and `None` exactly when it does not occur.
pub proof fn lemma_find_space_colon(s: Seq<char>)
    ensures
        match find_space_colon(s) {
            Some(i) => 0 <= i && i + 1 < s.len() && s[i] == ' ' && s[i + 1] == ':' && (forall|j: int|
                0 <= j < i ==> !(#[trigger] s[j] == ' ' && s[j + 1] == ':')),
            None => forall|j: int|
                0 <= j && j + 1 < s.len() ==> !(#[trigger] s[j] == ' ' && s[j + 1] == ':'),
        },
    decreases s.len(),
{
    if s.len() >= 2 && !(s[0] == ' ' && s[1] == ':') {
        lemma_find_space_colon(s.skip(1));
        assert(forall|j: int| 1 <= j < s.len() ==> s[j] == s.skip(1)[j - 1]);
    }
}

/// Position of the first `" :"` of `s`, if any.
pub fn find_space_colon_char(s: &str) -> (r: Option<usize>)
    ensures
        match r {
            Some(i) => find_space_colon(s@) == Some(i as int),
            None => find_space_colon(s@) is None,
        },
{
    proof {
        lemma_find_space_colon(s@);
    }
    let len = s.unicode_len();
    if len < 2 {
        return None;
    }
    let mut i: usize = 0;
    while i < len - 1
        invariant
            len == s@.len(),
            2 <= len,
            0 <= i <= len - 1,
            forall|j: int| 0 <= j < i ==> !(#[trigger] s@[j] == ' ' && s@[j + 1] == ':'),
        decreases len - i,
    {
        if s.get_char(i) == ' ' && s.get_char(i + 1) == ':' {
            proof {
                lemma_find_space_colon(s@);
            }
            return Some(i);
        }
        i += 1;
    }
    None
}

/// The pieces of `s` split on the separator `sep`: `std`'s `split`, so a
/// string without the separator (the empty string included) is one piece,
/// and leading, trailing and doubled separators give empty pieces.
pub open spec fn split_on(s: Seq<char>, sep: char) -> Seq<Seq<char>>
    decreases s.len(),
{
    match find_index(s, sep) {
        None => seq![s],
        Some(i) => {
            proof {
                lemma_find_index(s, sep);
            }
            seq![s.take(i)] + split_on(s.skip(i + 1), sep)
        },
    }
}

/// Split `s` on the separator `sep`, each piece as an owned string.
pub fn split_char(s: &str, sep: char) -> (out: Vec<String>)
    ensures
        out.deep_view() == split_on(s@, sep),
{
    let len = s.unicode_len();
    let mut out: Vec<String> = Vec::new();
    let mut start: usize = 0;
    let mut i: usize = 0;
    proof {
        assert(s@.subrange(0, len as int) =~= s@);
        assert(out.deep_view() =~= Seq::<Seq<char>>::empty());
        assert(out.deep_view() + split_on(s@, sep) =~= split_on(s@, sep));
    }
    while i < len
        invariant
            len == s@.len(),
            0 <= start <= i <= len,
            forall|j: int| start <= j < i ==> s@[j] != sep,
            split_on(s@, sep) == out.deep_view() + split_on(s@.subrange(start as int, len as int), sep),
        decreases len - i,
    {
        if s.get_char(i) == sep {
            let piece = s.substring_char(start, i);
            let ghost prev = out.deep_view();
            let ghost tail = s@.subrange(start as int, len as int);
            out.push(piece.to_owned());
            proof {
                lemma_find_index(tail, sep);
                assert(forall|j: int| 0 <= j < i - start ==> tail[j] == s@[start + j]);
                assert(tail[i - start] == sep);
                assert(find_index(tail, sep) == Some(i - start as int));
                assert(tail.take(i - start as int) =~= s@.subrange(start as int, i as int));
                assert(tail.skip(i - start as int + 1) =~= s@.subrange(i as int + 1, len as int));
                assert(out.deep_view() =~= prev + seq![s@.subrange(start as int, i as int)]);
                assert(out.deep_view() + split_on(s@.subrange(i as int + 1, len as int), sep)
                    =~= prev + split_on(tail, sep));
            }
            start = i + 1;
        }
        i += 1;
    }
    let piece = s.substring_char(start, len);
    let ghost prev = out.deep_view();
    let ghost tail = s@.subrange(start as int, len as int);
    out.push(piece.to_owned());
    proof {
        lemma_find_index(tail, sep);
        assert(forall|j: int| 0 <= j < len - start ==> tail[j] == s@[start + j]);
        assert(find_index(tail, sep) is None);
        assert(split_on(tail, sep) == seq![tail]);
        assert(out.deep_view() =~= prev + seq![tail]);
        assert(out.deep_view() =~= prev + split_on(tail, sep));
    }
    out
}

/// A decimal digit.
pub open spec fn is_dec_digit(c: char) -> bool {
    48 <= c as u32 <= 57
}

/// The numeric value of a decimal digit.
pub open spec fn digit_val(c: char) -> int {
    c as u32 - 48
}

pub open spec fn all_dec_digits(s: Seq<char>) -> bool {
    forall|j: int| 0 <= j < s.len() ==> is_dec_digit(#[trigger] s[j])
}

/// The number written by a string of decimal digits, most significant first.
pub open spec fn digits_val(s: Seq<char>) -> int
    decreases s.len(),
{
    if s.len() == 0 {
        0
    } else {
        digits_val(s.drop_last()) * 10 + digit_val(s.last())
    }
}

pub proof fn lemma_digits_val_nonneg(s: Seq<char>)
    requires
        all_dec_digits(s),
    ensures
        digits_val(s) >= 0,
    decreases s.len(),
{
    if s.len() > 0 {
        assert(all_dec_digits(s.drop_last()));
        lemma_digits_val_nonneg(s.drop_last());
    }
}

/// A prefix of a digit string never writes a larger number than the whole.
pub proof fn lemma_digits_val_prefix_le(s: Seq<char>, k: int)
    requires
        all_dec_digits(s),
        0 <= k <= s.len(),
    ensures
        digits_val(s.take(k)) <= digits_val(s),
    decreases s.len(),
{
    if k == s.len() {
        assert(s.take(k) =~= s);
    } else {
        assert(all_dec_digits(s.drop_last()));
        assert(s.take(k) =~= s.drop_last().take(k));
        lemma_digits_val_prefix_le(s.drop_last(), k);
        lemma_digits_val_nonneg(s.drop_last());
    }
}

/// The signed 64-bit integer written by `s` under `std`'s grammar for
/// `i64::from_str`: an optional sign, then one or more decimal digits,
/// the value within the range of `i64`; `None` otherwise.
pub open spec fn parse_i64_text(s: Seq<char>) -> Option<int> {
    let neg = s.len() > 0 && s[0] == '-';
    let ds = if s.len() > 0 && (s[0] == '+' || s[0] == '-') {
        s.skip(1)
    } else {
        s
    };
    if ds.len() == 0 || !all_dec_digits(ds) {
        None
    } else {
        let v = if neg {
            -digits_val(ds)
        } else {
            digits_val(ds)
        };
        if -9223372036854775808 <= v <= 9223372036854775807 {
            Some(v)
        } else {
            None
        }
    }
}

/// Whether `s` consists of decimal digits only (an empty `s` included).
pub fn all_digits_check(s: &str) -> (r: bool)
    ensures
        r == all_dec_digits(s@),
{
    let len = s.unicode_len();
    let mut i: usize = 0;
    while i < len
        invariant
            len == s@.len(),
            0 <= i <= len,
            forall|j: int| 0 <= j < i ==> is_dec_digit(#[trigger] s@[j]),
        decreases len - i,
    {
        let cv = s.get_char(i) as u32;
        if cv < 48 || cv > 57 {
            return false;
        }
        i += 1;
    }
    true
}

/// Bounds on appending one more digit to an accumulated value, around the
/// edges of the range of `i64`.
proof fn lemma_shift_digit(a: int, d: int)
    requires
        0 <= d <= 9,
        0 <= a,
    ensures
        a >= 922337203685477581 ==> a * 10 + d > 9223372036854775808,
        a == 922337203685477580 && d >= 9 ==> a * 10 + d > 9223372036854775808,
        a == 922337203685477580 && d >= 8 ==> a * 10 + d > 9223372036854775807,
        a <= 922337203685477580 ==> a * 10 + d <= 9223372036854775809,
        a <= 922337203685477579 ==> a * 10 + d <= 9223372036854775799,
        a == 922337203685477580 && d <= 8 ==> a * 10 + d <= 9223372036854775808,
        a == 922337203685477580 && d <= 7 ==> a * 10 + d <= 9223372036854775807,
        a * 10 + d >= 0,
{
    assert((a >= 922337203685477581 ==> a * 10 >= 9223372036854775810) && (a
        == 922337203685477580 ==> a * 10 == 9223372036854775800) && (a <= 922337203685477579 ==> a
        * 10 <= 9223372036854775790) && (a >= 0 ==> a * 10 >= 0)) by (nonlinear_arith);
}

/// Parse a signed 64-bit decimal integer, as `i64::from_str` does.
pub fn parse_i64(s: &str) -> (r: Option<i64>)
    ensures
        match r {
            Some(v) => parse_i64_text(s@) == Some(v as int),
            None => parse_i64_text(s@) is None,
        },
{
    let len = s.unicode_len();
    if len == 0 {
        return None;
    }
    let c0 = s.get_char(0);
    let neg = c0 == '-';
    let start: usize = if c0 == '-' || c0 == '+' {
        1
    } else {
        0
    };
    if start == len {
        return None;
    }
    let ghost ds = if start == 1 {
        s@.skip(1)
    } else {
        s@
    };
    let lim10: u64 = 922337203685477580;
    let lastd: u64 = if neg {
        8
    } else {
        7
    };
    let ghost limit: int = if neg {
        9223372036854775808int
    } else {
        9223372036854775807int
    };
    let mut acc: u64 = 0;
    let mut i: usize = start;
    while i < len
        invariant
            len == s@.len(),
            1 <= len,
            start <= i <= len,
            start <= 1,
            start < len,
            (start == 1) <==> (s@[0] == '-' || s@[0] == '+'),
            neg == (s@[0] == '-'),
            ds == if start == 1 {
                s@.skip(1)
            } else {
                s@
            },
            ds.len() == len - start,
            lim10 == 922337203685477580u64,
            lastd == if neg {
                8u64
            } else {
                7u64
            },
            limit == if neg {
                9223372036854775808int
            } else {
                9223372036854775807int
            },
            forall|j: int| 0 <= j < i - start ==> is_dec_digit(#[trigger] ds[j]),
            acc == digits_val(ds.take(i - start)),
            acc <= limit,
        decreases len - i,
    {
        let c = s.get_char(i);
        proof {
            assert(ds[i - start] == s@[i as int]);
        }
        let cv = c as u32;
        if cv < 48 || cv > 57 {
            proof {
                assert(!is_dec_digit(ds[i - start]));
            }
            return None;
        }
        let d: u64 = (cv - 48) as u64;
        let ghost k = i - start;
        proof {
            assert(ds.take(k + 1).drop_last() =~= ds.take(k as int));
            assert(ds.take(k + 1).last() == ds[k as int]);
            lemma_shift_digit(acc as int, d as int);
            assert(digits_val(ds.take(k + 1)) == acc * 10 + d);
        }
        if acc > lim10 || (acc == lim10 && d > lastd) {
            proof {
                assert(acc * 10 + d > limit);
                if all_dec_digits(ds) {
                    lemma_digits_val_prefix_le(ds, k + 1);
                    assert(digits_val(ds) > limit);
                }
            }
            return None;
        }
        acc = acc * 10 + d;
        i += 1;
    }
    proof {
        assert(ds.take(len - start) =~= ds);
        assert(all_dec_digits(ds));
    }
    if neg {
        if acc == 9223372036854775808 {
            Some(i64::MIN)
        } else {
            Some(-(acc as i64))
        }
    } else {
        Some(acc as i64)
    }
}

/// The character of a decimal digit.
pub open spec fn digit_char(d: int) -> char {
    if d == 0 {
        '0'
    } else if d == 1 {
        '1'
    } else if d == 2 {
        '2'
    } else if d == 3 {
        '3'
    } else if d == 4 {
        '4'
    } else if d == 5 {
        '5'
    } else if d == 6 {
        '6'
    } else if d == 7 {
        '7'
    } else if d == 8 {
        '8'
    } else {
        '9'
    }
}

/// The decimal text of a non-negative number.
pub open spec fn nat_text(v: int) -> Seq<char>
    decreases v,
{
    if v < 10 {
        seq![digit_char(v)]
    } else {
        nat_text(v / 10) + seq![digit_char(v % 10)]
    }
}

/// The decimal text of a signed 64-bit number, as `std` prints it: a minus
/// sign for negative numbers, then the digits, no leading zeros.
pub open spec fn i64_text(v: int) -> Seq<char> {
    if v < 0 {
        seq!['-'] + nat_text(-v)
    } else {
        nat_text(v)
    }
}

fn digit_str(d: u64) -> (r: &'static str)
    requires
        d < 10,
    ensures
        r@ == seq![digit_char(d as int)],
{
    let r = match d {
        0 => "0",
        1 => "1",
        2 => "2",
        3 => "3",
        4 => "4",
        5 => "5",
        6 => "6",
        7 => "7",
        8 => "8",
        _ => "9",
    };
    proof {
        reveal_strlit("0");
        reveal_strlit("1");
        reveal_strlit("2");
        reveal_strlit("3");
        reveal_strlit("4");
        reveal_strlit("5");
        reveal_strlit("6");
        reveal_strlit("7");
        reveal_strlit("8");
        reveal_strlit("9");
        assert(r@ =~= seq![digit_char(d as int)]);
    }
    r
}

fn u64_to_string(v: u64) -> (r: String)
    ensures
        r@ == nat_text(v as int),
    decreases v,
{
    if v < 10 {
        digit_str(v).to_owned()
    } else {
        let mut s = u64_to_string(v / 10);
        s.append(digit_str(v % 10));
        proof {
            assert(s@ =~= nat_text((v / 10) as int) + seq![digit_char((v % 10) as int)]);
        }
        s
    }
}

/// Render a signed 64-bit number in decimal.
pub fn i64_to_string(v: i64) -> (r: String)
    ensures
        r@ == i64_text(v as int),
{
    if v >= 0 {
        u64_to_string(v as u64)
    } else {
        let m: u64 = if v == i64::MIN {
            9223372036854775808
        } else {
            (-v) as u64
        };
        let mut s = "-".to_owned();
        let digits = u64_to_string(m);
        s.append(digits.as_str());
        proof {
            reveal_strlit("-");
            assert(s@ =~= seq!['-'] + nat_text(m as int));
        }
        s
    }
}

} // verus!
