//! Decimal text: rendering integers into strings and reading them from bytes.

use vstd::prelude::*;
use vstd::string::StringExecFns;

verus! {

/// The character of a decimal digit.
pub open spec fn digit_char(d: int) -> char {
    if d == 0 {
        '0'
    } else if d == 1 {
        '1'
    } else if d == 2 {
        '2'
    } else if d == 3 {
        '3'
    } else if d == 4 {
        '4'
    } else if d == 5 {
        '5'
    } else if d == 6 {
        '6'
    } else if d == 7 {
        '7'
    } else if d == 8 {
        '8'
    } else {
        '9'
    }
}

/// The decimal digits of `n`, most significant first, without leading zeros.
pub open spec fn decimal_nat(n: nat) -> Seq<char>
    decreases n,
{
    if n < 10 {
        seq![digit_char(n as int)]
    } else {
        decimal_nat(n / 10).push(digit_char((n % 10) as int))
    }
}

/// The decimal text of `v`, with a minus sign where it is negative.
pub open spec fn decimal(v: int) -> Seq<char> {
    if v < 0 {
        seq!['-'] + decimal_nat((-v) as nat)
    } else {
        decimal_nat(v as nat)
    }
}

/// `width - len` zeros, none where `len >= width`.
pub open spec fn zeros(width: int, len: int) -> Seq<char> {
    Seq::new(
        if len < width {
            (width - len) as nat
        } else {
            0nat
        },
        |i: int| '0',
    )
}

/// The decimal text of `n`, filled with zeros on the left up to `width` characters.
pub open spec fn decimal_padded(n: nat, width: int) -> Seq<char> {
    zeros(width, decimal_nat(n).len() as int) + decimal_nat(n)
}

fn digit_str(d: u8) -> (r: &'static str)
    requires
        d < 10,
    ensures
        r@ == seq![digit_char(d as int)],
{
    proof {
        reveal_strlit("0");
        reveal_strlit("1");
        reveal_strlit("2");
        reveal_strlit("3");
        reveal_strlit("4");
        reveal_strlit("5");
        reveal_strlit("6");
        reveal_strlit("7");
        reveal_strlit("8");
        reveal_strlit("9");
    }
    let r = if d == 0 {
        "0"
    } else if d == 1 {
        "1"
    } else if d == 2 {
        "2"
    } else if d == 3 {
        "3"
    } else if d == 4 {
        "4"
    } else if d == 5 {
        "5"
    } else if d == 6 {
        "6"
    } else if d == 7 {
        "7"
    } else if d == 8 {
        "8"
    } else {
        "9"
    };
    assert(r@ =~= seq![digit_char(d as int)]);
    r
}

/// The decimal digits of `n` as numbers, most significant first.
fn digits_of(n: u64) -> (r: Vec<u8>)
    ensures
        r@.len() == decimal_nat(n as nat).len(),
        forall|i: int| 0 <= i < r@.len() ==> (#[trigger] r@[i]) < 10,
        forall|i: int| 0 <= i < r@.len() ==> digit_char((#[trigger] r@[i]) as int) == decimal_nat(n as nat)[i],
    decreases n,
{
    if n < 10 {
        let mut r: Vec<u8> = Vec::new();
        r.push(n as u8);
        r
    } else {
        let mut r = digits_of(n / 10);
        r.push((n % 10) as u8);
        r
    }
}

/// Appends the decimal text of `n` to `s`, filled with zeros up to `width` characters.
pub fn push_padded(s: &mut String, n: u64, width: usize)
    ensures
        final(s)@ == old(s)@ + decimal_padded(n as nat, width as int),
{
    let digits = digits_of(n);
    let ghost text = decimal_nat(n as nat);
    let ghost start = s@;
    let mut k: usize = digits.len();
    while k < width
        invariant
            digits@.len() <= k,
            k <= width || k == digits@.len(),
            s@ == start + zeros(k as int, digits@.len() as int),
        decreases width - k,
    {
        proof {
            reveal_strlit("0");
        }
        s.append("0");
        k += 1;
        assert(s@ =~= start + zeros(k as int, digits@.len() as int));
    }
    assert(zeros(k as int, digits@.len() as int) =~= zeros(width as int, text.len() as int));
    let ghost lead = s@;
    let mut i: usize = 0;
    while i < digits.len()
        invariant
            i <= digits@.len(),
            digits@.len() == text.len(),
            forall|j: int| 0 <= j < digits@.len() ==> (#[trigger] digits@[j]) < 10,
            forall|j: int| 0 <= j < digits@.len() ==> digit_char((#[trigger] digits@[j]) as int) == text[j],
            s@ == lead + text.take(i as int),
        decreases digits@.len() - i,
    {
        s.append(digit_str(digits[i]));
        i += 1;
        assert(s@ =~= lead + text.take(i as int));
    }
    assert(text.take(i as int) =~= text);
    assert(s@ =~= start + decimal_padded(n as nat, width as int));
}

/// Appends the decimal text of `v` to `s`.
pub fn push_decimal(s: &mut String, v: i32)
    ensures
        final(s)@ == old(s)@ + decimal(v as int),
{
    let ghost start = s@;
    if v < 0 {
        proof {
            reveal_strlit("-");
        }
        s.append("-");
        let ghost signed = s@;
        let n: u64 = (-(v as i64)) as u64;
        push_padded(s, n, 0);
        assert(zeros(0, decimal_nat(n as nat).len() as int) =~= Seq::<char>::empty());
        assert(s@ =~= start + decimal(v as int));
    } else {
        let n: u64 = v as u64;
        push_padded(s, n, 0);
        assert(zeros(0, decimal_nat(n as nat).len() as int) =~= Seq::<char>::empty());
        assert(s@ =~= start + decimal(v as int));
    }
}

/// The characters that a picture of a grid is drawn with.
pub open spec fn is_symbol(c: char) -> bool {
    c == '#' || c == '.' || c == '-' || c == 'O' || c == 'B' || c == 'F' || c == 'L' || c == 'X' || c == 'R'
        || c == 'C' || c == ' ' || c == 'o' || c == 'x'
}

/// Appends the character `c` to `s`.
pub fn push_symbol(s: &mut String, c: char)
    requires
        is_symbol(c),
    ensures
        final(s)@ == old(s)@.push(c),
{
    proof {
        reveal_strlit("#");
        reveal_strlit(".");
        reveal_strlit("-");
        reveal_strlit("O");
        reveal_strlit("B");
        reveal_strlit("F");
        reveal_strlit("L");
        reveal_strlit("X");
        reveal_strlit("R");
        reveal_strlit("C");
        reveal_strlit(" ");
        reveal_strlit("o");
        reveal_strlit("x");
    }
    let ghost start = s@;
    if c == '#' {
        s.append("#");
    } else if c == '.' {
        s.append(".");
    } else if c == '-' {
        s.append("-");
    } else if c == 'O' {
        s.append("O");
    } else if c == 'B' {
        s.append("B");
    } else if c == 'F' {
        s.append("F");
    } else if c == 'L' {
        s.append("L");
    } else if c == 'X' {
        s.append("X");
    } else if c == 'R' {
        s.append("R");
    } else if c == 'C' {
        s.append("C");
    } else if c == ' ' {
        s.append(" ");
    } else if c == 'o' {
        s.append("o");
    } else {
        s.append("x");
    }
    assert(s@ =~= start.push(c));
}

/// The fields of `s` from `start` on, where the bytes up to `i` hold no separator: a field
/// ends before each byte that is `sep`, and the last field ends with `s`.
pub open spec fn split_scan(s: Seq<u8>, sep: u8, start: int, i: int) -> Seq<Seq<u8>>
    decreases s.len() - i,
{
    if i >= s.len() {
        seq![s.subrange(start, s.len() as int)]
    } else if s[i] == sep {
        seq![s.subrange(start, i)] + split_scan(s, sep, i + 1, i + 1)
    } else {
        split_scan(s, sep, start, i + 1)
    }
}

/// The fields of `s` between the bytes that are `sep`. A text without `sep` is one field.
pub open spec fn split_on(s: Seq<u8>, sep: u8) -> Seq<Seq<u8>> {
    split_scan(s, sep, 0, 0)
}

/// The fields with `sep` between them.
pub open spec fn join_with(fields: Seq<Seq<u8>>, sep: u8) -> Seq<u8>
    decreases fields.len(),
{
    if fields.len() == 0 {
        Seq::empty()
    } else if fields.len() == 1 {
        fields[0]
    } else {
        fields[0] + seq![sep] + join_with(fields.skip(1), sep)
    }
}

proof fn lemma_split_scan(s: Seq<u8>, sep: u8, start: int, i: int)
    requires
        0 <= start <= i <= s.len(),
        forall|k: int| start <= k < i ==> s[k] != sep,
    ensures
        split_scan(s, sep, start, i).len() >= 1,
        join_with(split_scan(s, sep, start, i), sep) == s.subrange(start, s.len() as int),
        forall|f: int, k: int|
            0 <= f < split_scan(s, sep, start, i).len() && 0 <= k < split_scan(s, sep, start, i)[f].len()
                ==> (#[trigger] split_scan(s, sep, start, i)[f][k]) != sep,
    decreases s.len() - i,
{
    let fields = split_scan(s, sep, start, i);
    if i >= s.len() {
    } else if s[i] == sep {
        lemma_split_scan(s, sep, i + 1, i + 1);
        let rest = split_scan(s, sep, i + 1, i + 1);
        assert(fields =~= seq![s.subrange(start, i)] + rest);
        assert(fields.skip(1) =~= rest);
        assert(join_with(fields, sep) =~= s.subrange(start, s.len() as int));
        assert forall|f: int, k: int| 0 <= f < fields.len() && 0 <= k < fields[f].len() implies (#[trigger] fields[f][k])
            != sep by {
            if f > 0 {
                assert(fields[f] == rest[f - 1]);
            }
        }
    } else {
        lemma_split_scan(s, sep, start, i + 1);
    }
}

/// Splitting loses nothing: no field holds the separator, and the fields joined by the
/// separator are the text.
pub proof fn lemma_split_join(s: Seq<u8>, sep: u8)
    ensures
        split_on(s, sep).len() >= 1,
        join_with(split_on(s, sep), sep) == s,
        forall|f: int, k: int|
            0 <= f < split_on(s, sep).len() && 0 <= k < split_on(s, sep)[f].len() ==> (#[trigger] split_on(
                s,
                sep,
            )[f][k]) != sep,
{
    lemma_split_scan(s, sep, 0, 0);
    assert(s.subrange(0, s.len() as int) =~= s);
}

/// The parts of `b` that the ranges name.
pub open spec fn pieces(b: Seq<u8>, ranges: Seq<(usize, usize)>) -> Seq<Seq<u8>> {
    ranges.map_values(|r: (usize, usize)| b.subrange(r.0 as int, r.1 as int))
}

/// The fields of the bytes of `b` from `lo` to `hi`, as ranges of `b`.
pub fn split_ranges(b: &[u8], lo: usize, hi: usize, sep: u8) -> (r: Vec<(usize, usize)>)
    requires
        lo <= hi <= b@.len(),
    ensures
        pieces(b@, r@) == split_on(b@.subrange(lo as int, hi as int), sep),
        r@.len() >= 1,
        forall|k: int| 0 <= k < r@.len() ==> lo <= (#[trigger] r@[k]).0 <= r@[k].1 <= hi,
{
    let ghost t = b@.subrange(lo as int, hi as int);
    let mut r: Vec<(usize, usize)> = Vec::new();
    let mut start: usize = lo;
    let mut i: usize = lo;
    assert(pieces(b@, r@) + split_scan(t, sep, 0, 0) =~= split_on(t, sep));
    while i < hi
        invariant
            lo <= start <= i <= hi <= b@.len(),
            t == b@.subrange(lo as int, hi as int),
            pieces(b@, r@) + split_scan(t, sep, start - lo, i - lo) == split_on(t, sep),
            forall|k: int| 0 <= k < r@.len() ==> lo <= (#[trigger] r@[k]).0 <= r@[k].1 <= hi,
        decreases hi - i,
    {
        let ghost before = pieces(b@, r@);
        if b[i] == sep {
            assert(t[i - lo] == sep);
            r.push((start, i));
            proof {
                assert(t.subrange(start - lo, i - lo) =~= b@.subrange(start as int, i as int));
                assert(pieces(b@, r@) =~= before.push(b@.subrange(start as int, i as int)));
                assert(pieces(b@, r@) + split_scan(t, sep, i + 1 - lo, i + 1 - lo) =~= before + split_scan(
                    t,
                    sep,
                    start - lo,
                    i - lo,
                ));
            }
            start = i + 1;
        } else {
            assert(t[i - lo] != sep);
        }
        i += 1;
    }
    let ghost before = pieces(b@, r@);
    r.push((start, hi));
    proof {
        assert(t.subrange(start - lo, t.len() as int) =~= b@.subrange(start as int, hi as int));
        assert(pieces(b@, r@) =~= before.push(b@.subrange(start as int, hi as int)));
        assert(pieces(b@, r@) =~= before + split_scan(t, sep, start - lo, i - lo));
    }
    r
}

/// The number that a run of decimal digits stands for.
pub open spec fn digits_value(s: Seq<u8>) -> int
    decreases s.len(),
{
    if s.len() == 0 {
        0
    } else {
        digits_value(s.drop_last()) * 10 + (s.last() - 48)
    }
}

/// Every byte is a decimal digit.
pub open spec fn all_digits(s: Seq<u8>) -> bool {
    forall|i: int| 0 <= i < s.len() ==> 48 <= #[trigger] s[i] <= 57
}

/// The number that `s` is the decimal text of: an optional sign, `+` or `-`, and at least
/// one digit, for a number in the range of `i32`. `None` for any other text.
pub open spec fn int_text(s: Seq<u8>) -> Option<int> {
    let signed = s.len() > 0 && (s[0] == 45 || s[0] == 43);
    let body = if signed {
        s.skip(1)
    } else {
        s
    };
    let v = if s.len() > 0 && s[0] == 45 {
        -digits_value(body)
    } else {
        digits_value(body)
    };
    if body.len() > 0 && all_digits(body) && i32::MIN <= v <= i32::MAX {
        Some(v)
    } else {
        None
    }
}

/// Reads the bytes of `b` from `lo` to `hi` as a decimal number.
pub fn parse_int(b: &[u8], lo: usize, hi: usize) -> (r: Option<i32>)
    requires
        lo <= hi <= b@.len(),
    ensures
        match r {
            Some(v) => int_text(b@.subrange(lo as int, hi as int)) == Some(v as int),
            None => int_text(b@.subrange(lo as int, hi as int)) is None,
        },
{
    let ghost s = b@.subrange(lo as int, hi as int);
    if lo == hi {
        return None;
    }
    assert(s[0] == b@[lo as int]);
    let negative = b[lo] == 45;
    let start: usize = if b[lo] == 45 || b[lo] == 43 {
        lo + 1
    } else {
        lo
    };
    let ghost body = b@.subrange(start as int, hi as int);
    assert(body =~= if start > lo {
        s.skip(1)
    } else {
        s
    });
    if start == hi {
        return None;
    }
    let cap: i64 = 0x8000_0001;
    let mut acc: i64 = 0;
    let mut i: usize = start;
    assert(body.take(0) =~= Seq::<u8>::empty());
    while i < hi
        invariant
            lo <= start <= i <= hi <= b@.len(),
            lo < hi,
            s == b@.subrange(lo as int, hi as int),
            body == b@.subrange(start as int, hi as int),
            body == if s[0] == 45 || s[0] == 43 {
                s.skip(1)
            } else {
                s
            },
            cap == 0x8000_0001,
            all_digits(body.take(i - start)),
            0 <= digits_value(body.take(i - start)),
            acc == if digits_value(body.take(i - start)) < cap {
                digits_value(body.take(i - start))
            } else {
                cap as int
            },
        decreases hi - i,
    {
        let c = b[i];
        assert(body[i - start] == c);
        if c < 48 || c > 57 {
            assert(!all_digits(body));
            return None;
        }
        proof {
            let t = body.take(i + 1 - start);
            assert(t.drop_last() =~= body.take(i - start));
            assert(t.last() == c);
            assert forall|k: int| 0 <= k < t.len() implies 48 <= #[trigger] t[k] <= 57 by {
                if k < t.len() - 1 {
                    assert(t[k] == body.take(i - start)[k]);
                }
            }
        }
        let next: i64 = acc * 10 + (c - 48) as i64;
        acc = if next < cap {
            next
        } else {
            cap
        };
        i += 1;
    }
    assert(body.take(i - start) =~= body);
    if negative {
        if acc <= 0x8000_0000 {
            Some((-acc) as i32)
        } else {
            None
        }
    } else {
        if acc <= 0x7fff_ffff {
            Some(acc as i32)
        } else {
            None
        }
    }
}

} // verus!
