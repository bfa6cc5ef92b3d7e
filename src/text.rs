//! Character-level helpers shared by the record codec and key parsing:
//! decimal digits and the conversion between `str` and character vectors.
use vstd::prelude::*;
use vstd::string::StrSliceExecFns;

verus! {

pub open spec fn is_digit(c: char) -> bool {
    '0' <= c && c <= '9'
}

pub open spec fn digit_value(c: char) -> int {
    c as int - '0' as int
}

pub open spec fn digit_char(d: int) -> char
    recommends
        0 <= d < 10,
{
    (d + '0' as int) as char
}

/// The shortest decimal spelling of `n`.
pub open spec fn decimal(n: nat) -> Seq<char>
    decreases n,
{
    if n < 10 {
        seq![digit_char(n as int)]
    } else {
        decimal(n / 10).push(digit_char((n % 10) as int))
    }
}

/// The number a run of digits spells, read from left to right.
pub open spec fn digits_value(s: Seq<char>) -> int
    decreases s.len(),
{
    if s.len() == 0 {
        0
    } else {
        digits_value(s.drop_last()) * 10 + digit_value(s.last())
    }
}

/// Index of the first non-digit character at or after `i`.
pub open spec fn digit_end(s: Seq<char>, i: int) -> int
    decreases s.len() - i,
{
    if 0 <= i < s.len() && is_digit(s[i]) {
        digit_end(s, i + 1)
    } else {
        i
    }
}

/// Reading an unsigned number at `i`: at least one digit, and a value that
/// fits in 64 bits. Gives the value and the index just past the digits.
pub open spec fn read_u64(s: Seq<char>, i: int) -> Option<(u64, int)> {
    let e = digit_end(s, i);
    let v = digits_value(s.subrange(i, e));
    if e > i && v <= u64::MAX {
        Some((v as u64, e))
    } else {
        None
    }
}

proof fn lemma_digit_end_bounds(s: Seq<char>, i: int)
    requires
        0 <= i <= s.len(),
    ensures
        i <= digit_end(s, i) <= s.len(),
        forall|k: int| i <= k < digit_end(s, i) ==> is_digit(#[trigger] s[k]),
    decreases s.len() - i,
{
    if i < s.len() && is_digit(s[i]) {
        lemma_digit_end_bounds(s, i + 1);
    }
}

proof fn lemma_decimal_digits(n: nat)
    ensures
        decimal(n).len() >= 1,
        forall|k: int| 0 <= k < decimal(n).len() ==> is_digit(#[trigger] decimal(n)[k]),
        digits_value(decimal(n)) == n,
    decreases n,
{
    let d = (n % 10) as int;
    assert(digit_value(digit_char(d)) == d);
    if n >= 10 {
        lemma_decimal_digits(n / 10);
        assert(decimal(n).drop_last() =~= decimal(n / 10));
        assert(decimal(n).last() == digit_char(d));
        assert(n == (n / 10) * 10 + d);
    } else {
        assert(decimal(n).last() == digit_char(d));
        assert(decimal(n).drop_last() =~= Seq::<char>::empty());
        assert(digits_value(Seq::<char>::empty()) == 0);
    }
    assert(decimal(n).len() > 0);
    assert(digits_value(decimal(n)) == digits_value(decimal(n).drop_last()) * 10 + digit_value(
        decimal(n).last(),
    ));
}

proof fn lemma_digits_value_prefix(s: Seq<char>, j: int)
    requires
        0 <= j <= s.len(),
        forall|k: int| 0 <= k < s.len() ==> is_digit(#[trigger] s[k]),
    ensures
        0 <= digits_value(s.subrange(0, j)) <= digits_value(s),
    decreases s.len(),
{
    if s.len() > 0 {
        if j == s.len() {
            assert(s.subrange(0, j) =~= s);
            lemma_digits_value_prefix(s.drop_last(), 0);
        } else {
            assert(s.subrange(0, j) =~= s.drop_last().subrange(0, j));
            lemma_digits_value_prefix(s.drop_last(), j);
        }
    }
}

/// Reading back the decimal spelling of `n`, followed by a non-digit, gives `n`.
pub proof fn lemma_read_decimal(s: Seq<char>, i: int, n: nat)
    requires
        0 <= i,
        n <= u64::MAX,
        i + decimal(n).len() < s.len(),
        s.subrange(i, i + decimal(n).len()) == decimal(n),
        !is_digit(s[i + decimal(n).len()]),
    ensures
        read_u64(s, i) == Some((n as u64, i + decimal(n).len())),
{
    lemma_decimal_digits(n);
    let e = i + decimal(n).len();
    assert forall|m: int| i <= m < e implies is_digit(#[trigger] s[m]) by {
        assert(s[m] == s.subrange(i, e)[m - i]);
    }
    assert forall|k: int| i <= k < e implies digit_end(s, k) == e by {
        lemma_digit_end_steps(s, i, e, k);
    }
    assert(s.subrange(i, e) =~= decimal(n));
}

proof fn lemma_digit_end_steps(s: Seq<char>, i: int, e: int, k: int)
    requires
        0 <= i <= k <= e < s.len(),
        forall|m: int| i <= m < e ==> is_digit(#[trigger] s[m]),
        !is_digit(s[e]),
    ensures
        digit_end(s, k) == e,
    decreases e - k,
{
    if k < e {
        assert(is_digit(s[k]));
        lemma_digit_end_steps(s, i, e, k + 1);
    }
}

/// The characters of `s`, in order.
pub fn chars_of(s: &str) -> (r: Vec<char>)
    ensures
        r@ == s@,
{
    let n = s.unicode_len();
    let mut r: Vec<char> = Vec::new();
    let mut i: usize = 0;
    while i < n
        invariant
            n == s@.len(),
            i <= n,
            r@ == s@.subrange(0, i as int),
        decreases n - i,
    {
        r.push(s.get_char(i));
        i = i + 1;
    }
    assert(r@ =~= s@);
    r
}

/// Relies on std's `String::from_iter` over chars: the string holds exactly
/// the given characters, in order.
#[verifier::external_body]
pub fn string_of(v: &Vec<char>) -> (r: String)
    ensures
        r@ == v@,
{
    String::from_iter(v.iter())
}

/// Appends the decimal spelling of `n`.
pub fn push_decimal(out: &mut Vec<char>, n: u64)
    ensures
        final(out)@ == old(out)@ + decimal(n as nat),
    decreases n,
{
    if n >= 10 {
        push_decimal(out, n / 10);
    }
    let d: u64 = n % 10;
    let c: char = ((d as u8) + 48u8) as char;
    assert(c == digit_char((n % 10) as int));
    out.push(c);
    assert(final(out)@ =~= old(out)@ + decimal(n as nat));
}

/// Reads an unsigned decimal number starting at `i`.
pub fn parse_u64(s: &Vec<char>, i: usize) -> (r: Option<(u64, usize)>)
    requires
        i <= s@.len(),
    ensures
        match r {
            Some((v, e)) => read_u64(s@, i as int) == Some((v, e as int)),
            None => read_u64(s@, i as int) is None,
        },
{
    let mut j: usize = i;
    let mut acc: u64 = 0;
    let mut overflow: bool = false;
    proof {
        lemma_digit_end_bounds(s@, i as int);
    }
    while j < s.len() && '0' <= s[j] && s[j] <= '9'
        invariant
            i <= j <= s@.len(),
            digit_end(s@, j as int) == digit_end(s@, i as int),
            i <= digit_end(s@, i as int) <= s@.len(),
            forall|k: int| i <= k < digit_end(s@, i as int) ==> is_digit(#[trigger] s@[k]),
            !overflow ==> acc as int == digits_value(s@.subrange(i as int, j as int)),
            overflow ==> digits_value(s@.subrange(i as int, j as int)) > u64::MAX,
        decreases s@.len() - j,
    {
        proof {
            lemma_digit_end_bounds(s@, j + 1);
        }
        let d: u64 = (s[j] as u32 - '0' as u32) as u64;
        let ghost prev = s@.subrange(i as int, j as int);
        let ghost next = s@.subrange(i as int, j + 1);
        assert(next.drop_last() =~= prev);
        assert(digits_value(next) == digits_value(prev) * 10 + d);
        if !overflow {
            match acc.checked_mul(10) {
                Some(m) => match m.checked_add(d) {
                    Some(v) => {
                        acc = v;
                    },
                    None => {
                        overflow = true;
                    },
                },
                None => {
                    overflow = true;
                    assert(digits_value(prev) * 10 + d > u64::MAX) by (nonlinear_arith)
                        requires
                            acc * 10 > u64::MAX,
                            acc as int == digits_value(prev),
                            d >= 0,
                    ;
                },
            }
        } else {
            proof {
                assert forall|k: int| 0 <= k < prev.len() implies is_digit(#[trigger] prev[k]) by {
                    assert(prev[k] == s@[i + k]);
                }
                lemma_digits_value_nonneg(prev);
                assert(digits_value(prev) * 10 + d > u64::MAX) by (nonlinear_arith)
                    requires
                        digits_value(prev) > u64::MAX,
                        d >= 0,
                ;
            }
        }
        j = j + 1;
    }
    assert(j as int == digit_end(s@, i as int));
    if j == i || overflow {
        None
    } else {
        Some((acc, j))
    }
}

proof fn lemma_digits_value_nonneg(s: Seq<char>)
    requires
        forall|k: int| 0 <= k < s.len() ==> is_digit(#[trigger] s[k]),
    ensures
        digits_value(s) >= 0,
    decreases s.len(),
{
    if s.len() > 0 {
        assert forall|k: int| 0 <= k < s.drop_last().len() implies is_digit(#[trigger] s.drop_last()[k]) by {
            assert(s.drop_last()[k] == s[k]);
        }
        lemma_digits_value_nonneg(s.drop_last());
    }
}

} // verus!
