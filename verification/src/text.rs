//! Decimal numbers and space-separated fields in lines of bytes.

use vstd::prelude::*;

verus! {

/// ASCII white space: blank, tab, line feed, vertical tab, form feed, carriage return.
pub open spec fn is_space(c: u8) -> bool {
    c == 32 || (9 <= c && c <= 13)
}

/// `c` is one of `0` to `9`.
pub open spec fn is_digit(c: u8) -> bool {
    48 <= c && c <= 57
}

/// Every byte is a decimal digit.
pub open spec fn all_digits(d: Seq<u8>) -> bool {
    forall|i: int| 0 <= i < d.len() ==> is_digit(#[trigger] d[i])
}

/// No byte is a blank.
pub open spec fn no_blank(d: Seq<u8>) -> bool {
    forall|i: int| 0 <= i < d.len() ==> (#[trigger] d[i]) != 32
}

/// The number that a sequence of decimal digits denotes.
pub open spec fn value_of(d: Seq<u8>) -> nat
    decreases d.len(),
{
    if d.len() == 0 {
        0
    } else {
        (value_of(d.drop_last()) * 10 + (d.last() - 48)) as nat
    }
}

/// The decimal digits of `n`, without leading zeros.
pub open spec fn digits_of(n: nat) -> Seq<u8>
    decreases n,
{
    if n < 10 {
        seq![(48 + n) as u8]
    } else {
        digits_of(n / 10).push((48 + n % 10) as u8)
    }
}

/// The decimal text of `x`, with a minus sign where it is negative.
pub open spec fn text_of(x: int) -> Seq<u8> {
    if x < 0 {
        seq![45u8] + digits_of((-x) as nat)
    } else {
        digits_of(x as nat)
    }
}

/// `s` without the white space at its two ends.
pub open spec fn trimmed(s: Seq<u8>) -> Seq<u8>
    decreases s.len(),
{
    if s.len() > 0 && is_space(s[0]) {
        trimmed(s.skip(1))
    } else if s.len() > 0 && is_space(s.last()) {
        trimmed(s.drop_last())
    } else {
        s
    }
}

/// The integer that a token denotes: decimal digits behind an optional sign.
pub open spec fn number(t: Seq<u8>) -> Option<int> {
    if t.len() > 0 && (t[0] == 45 || t[0] == 43) {
        let d = t.skip(1);
        if d.len() > 0 && all_digits(d) {
            Some(
                if t[0] == 45 {
                    -(value_of(d) as int)
                } else {
                    value_of(d) as int
                },
            )
        } else {
            None
        }
    } else if t.len() > 0 && all_digits(t) {
        Some(value_of(t) as int)
    } else {
        None
    }
}

/// The signed 32-bit integer that `s` holds between white space, if any.
pub open spec fn i32_of(s: Seq<u8>) -> Option<i32> {
    match number(trimmed(s)) {
        Some(v) => if i32::MIN <= v <= i32::MAX {
            Some(v as i32)
        } else {
            None
        },
        None => None,
    }
}

/// The index that `s` holds between white space, if any; a minus sign is not accepted.
pub open spec fn usize_of(s: Seq<u8>) -> Option<usize> {
    match number(trimmed(s)) {
        Some(v) => if trimmed(s)[0] != 45 && v <= usize::MAX {
            Some(v as usize)
        } else {
            None
        },
        None => None,
    }
}

/// The fields of a line: the pieces between its blanks. A line without a
/// blank is one field; two blanks in a row hold an empty field.
pub open spec fn fields(s: Seq<u8>) -> Seq<Seq<u8>>
    decreases s.len(),
{
    if s.len() == 0 {
        seq![Seq::empty()]
    } else if s.last() == 32 {
        fields(s.drop_last()).push(Seq::empty())
    } else {
        let f = fields(s.drop_last());
        f.update(f.len() - 1, f.last().push(s.last()))
    }
}

/// The tokens with one blank between each two.
pub open spec fn joined(tokens: Seq<Seq<u8>>) -> Seq<u8>
    decreases tokens.len(),
{
    if tokens.len() == 0 {
        Seq::empty()
    } else if tokens.len() == 1 {
        tokens[0]
    } else {
        joined(tokens.drop_last()).push(32u8) + tokens.last()
    }
}

/// The views of a vector of byte vectors.
pub open spec fn views(v: Seq<Vec<u8>>) -> Seq<Seq<u8>> {
    Seq::new(v.len(), |i: int| v[i]@)
}

pub proof fn lemma_fields_nonempty(s: Seq<u8>)
    ensures
        fields(s).len() >= 1,
    decreases s.len(),
{
    if s.len() > 0 {
        lemma_fields_nonempty(s.drop_last());
    }
}

/// The digits of a number are digits, and denote it.
pub proof fn lemma_digits_round_trip(n: nat)
    ensures
        digits_of(n).len() >= 1,
        all_digits(digits_of(n)),
        value_of(digits_of(n)) == n,
    decreases n,
{
    if n < 10 {
        let d = digits_of(n);
        assert(d.drop_last() =~= Seq::empty());
        assert(value_of(d.drop_last()) == 0);
    } else {
        lemma_digits_round_trip(n / 10);
        let d = digits_of(n);
        assert(d.drop_last() =~= digits_of(n / 10));
    }
}

/// A prefix of a digit sequence denotes no more than the whole.
pub proof fn lemma_value_grows(d: Seq<u8>, k: int)
    requires
        0 <= k <= d.len(),
        all_digits(d),
    ensures
        value_of(d.take(k)) <= value_of(d),
    decreases d.len() - k,
{
    if k < d.len() {
        lemma_value_grows(d, k + 1);
        assert(d.take(k + 1).drop_last() =~= d.take(k));
        assert(is_digit(d[k]));
        assert(d.take(k + 1).last() == d[k]);
    } else {
        assert(d.take(k) =~= d);
    }
}

/// What is left between the leading and the trailing white space is the trimmed line.
pub proof fn lemma_trimmed(s: Seq<u8>, a: int, b: int)
    requires
        0 <= a <= b <= s.len(),
        forall|k: int| 0 <= k < a ==> is_space(#[trigger] s[k]),
        forall|k: int| b <= k < s.len() ==> is_space(#[trigger] s[k]),
        a < b ==> !is_space(s[a]) && !is_space(s[b - 1]),
    ensures
        trimmed(s) == s.subrange(a, b),
    decreases s.len(),
{
    if s.len() == 0 {
        assert(s.subrange(a, b) =~= s);
    } else if is_space(s[0]) {
        let t = s.skip(1);
        if a >= 1 {
            lemma_trimmed(t, a - 1, b - 1);
            assert(t.subrange(a - 1, b - 1) =~= s.subrange(a, b));
        } else {
            lemma_trimmed(t, 0, 0);
            assert(t.subrange(0, 0) =~= s.subrange(a, b));
        }
    } else if is_space(s.last()) {
        let t = s.drop_last();
        assert(a == 0);
        assert(b < s.len());
        lemma_trimmed(t, a, b);
        assert(t.subrange(a, b) =~= s.subrange(a, b));
    } else {
        assert(a == 0);
        assert(b == s.len());
        assert(s.subrange(a, b) =~= s);
    }
}

/// The part of `s` between its leading and trailing white space.
pub fn trim(s: &[u8]) -> (r: (usize, usize))
    ensures
        r.0 <= r.1 <= s@.len(),
        trimmed(s@) == s@.subrange(r.0 as int, r.1 as int),
        forall|k: int| 0 <= k < r.0 ==> is_space(#[trigger] s@[k]),
        forall|k: int| r.1 <= k < s@.len() ==> is_space(#[trigger] s@[k]),
        r.0 < s@.len() ==> !is_space(s@[r.0 as int]) && r.0 < r.1 && !is_space(s@[r.1 - 1]),
{
    let n = s.len();
    let mut a: usize = 0;
    while a < n && (s[a] == 32 || (9 <= s[a] && s[a] <= 13))
        invariant
            a <= n,
            n == s@.len(),
            forall|k: int| 0 <= k < a ==> is_space(#[trigger] s@[k]),
        decreases n - a,
    {
        a += 1;
    }
    let mut b: usize = n;
    while b > a && (s[b - 1] == 32 || (9 <= s[b - 1] && s[b - 1] <= 13))
        invariant
            a <= b <= n,
            n == s@.len(),
            forall|k: int| b <= k < n ==> is_space(#[trigger] s@[k]),
        decreases b,
    {
        b -= 1;
    }
    proof {
        lemma_trimmed(s@, a as int, b as int);
    }
    (a, b)
}

/// Reads the decimal digits of `s` from `from` up to `to`; `None` unless
/// there is at least one byte, every byte is a digit and the number is at
/// most `limit`.
pub fn scan_digits(s: &[u8], from: usize, to: usize, limit: u128) -> (r: Option<u128>)
    requires
        from <= to <= s@.len(),
        limit <= 0x1_0000_0000_0000_0000,
    ensures
        r.is_some() <==> from < to && all_digits(s@.subrange(from as int, to as int)) && value_of(
            s@.subrange(from as int, to as int),
        ) <= limit,
        match r {
            Some(v) => v == value_of(s@.subrange(from as int, to as int)),
            None => true,
        },
{
    if from == to {
        return None;
    }
    let ghost d = s@.subrange(from as int, to as int);
    let mut acc: u128 = 0;
    let mut i: usize = from;
    assert(d.take(0) =~= Seq::empty());
    while i < to
        invariant
            from <= i <= to,
            to <= s@.len(),
            d == s@.subrange(from as int, to as int),
            limit <= 0x1_0000_0000_0000_0000,
            all_digits(d.take(i - from)),
            acc == value_of(d.take(i - from)),
            acc <= limit,
        decreases to - i,
    {
        let c = s[i];
        if c < 48 || c > 57 {
            assert(!is_digit(d[i - from]));
            return None;
        }
        let next: u128 = acc * 10 + (c - 48) as u128;
        proof {
            assert(d.take(i - from + 1).drop_last() =~= d.take(i - from));
            assert(d.take(i - from + 1).last() == c);
            assert forall|k: int| 0 <= k < d.take(i - from + 1).len() implies is_digit(
                #[trigger] d.take(i - from + 1)[k],
            ) by {
                if k < i - from {
                    assert(d.take(i - from)[k] == d[k]);
                }
            }
        }
        if next > limit {
            proof {
                if all_digits(d) {
                    lemma_value_grows(d, i - from + 1);
                }
            }
            return None;
        }
        acc = next;
        i += 1;
    }
    assert(d.take(to - from) =~= d);
    Some(acc)
}

/// Appends the decimal digits of `n` to `out`.
pub fn push_digits(n: u64, out: &mut Vec<u8>)
    ensures
        final(out)@ == old(out)@ + digits_of(n as nat),
    decreases n,
{
    if n >= 10 {
        push_digits(n / 10, out);
    }
    out.push(48 + (n % 10) as u8);
    assert(final(out)@ =~= old(out)@ + digits_of(n as nat));
}

/// Appends the decimal text of `x` to `out`.
pub fn push_i32(x: i32, out: &mut Vec<u8>)
    ensures
        final(out)@ == old(out)@ + text_of(x as int),
{
    if x < 0 {
        out.push(45);
        push_digits((-(x as i64)) as u64, out);
        assert(final(out)@ =~= old(out)@ + text_of(x as int));
    } else {
        push_digits(x as u64, out);
    }
}

/// Appends the decimal text of `x` to `out`.
pub fn push_usize(x: usize, out: &mut Vec<u8>)
    ensures
        final(out)@ == old(out)@ + text_of(x as int),
{
    push_digits(x as u64, out);
}

/// Cuts `s` at every blank.
pub fn split_fields(s: &[u8]) -> (r: Vec<Vec<u8>>)
    ensures
        views(r@) == fields(s@),
{
    let mut done: Vec<Vec<u8>> = Vec::new();
    let mut current: Vec<u8> = Vec::new();
    let mut i: usize = 0;
    assert(s@.take(0) =~= Seq::empty());
    assert(views(done@).push(current@) =~= fields(s@.take(0)));
    while i < s.len()
        invariant
            i <= s@.len(),
            views(done@).push(current@) == fields(s@.take(i as int)),
        decreases s@.len() - i,
    {
        let c = s[i];
        proof {
            assert(s@.take(i + 1).drop_last() =~= s@.take(i as int));
            assert(s@.take(i + 1).last() == c);
        }
        let ghost before = views(done@).push(current@);
        if c == 32 {
            done.push(current);
            current = Vec::new();
            assert(views(done@).push(current@) =~= before.push(Seq::empty()));
        } else {
            current.push(c);
            assert(views(done@).push(current@) =~= before.update(
                before.len() - 1,
                before.last().push(c),
            ));
        }
        i += 1;
    }
    assert(s@.take(s@.len() as int) =~= s@);
    done.push(current);
    assert(views(done@) =~= fields(s@));
    done
}

} // verus!
