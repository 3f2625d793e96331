//! Decimal numbers in text: the leading count of a command (`3w`), the
//! integer parse that `str::parse::<usize>` performs, and decimal rendering.
use vstd::prelude::*;
use crate::text::{numeric, is_numeric};

verus! {

pub open spec fn is_ascii_digit(c: char) -> bool {
    '0' <= c && c <= '9'
}

pub open spec fn digit_value(c: char) -> nat {
    (c as int - '0' as int) as nat
}

pub open spec fn all_ascii_digits(s: Seq<char>) -> bool {
    forall|i: int| 0 <= i < s.len() ==> is_ascii_digit(#[trigger] s[i])
}

/// Value of a sequence of ASCII digits read in base 10.
pub open spec fn decimal_value(s: Seq<char>) -> nat
    decreases s.len(),
{
    if s.len() == 0 {
        0
    } else {
        decimal_value(s.drop_last()) * 10 + digit_value(s.last())
    }
}

/// What `str::parse::<usize>` gives for `s`: an optional `'+'` followed by at
/// least one ASCII digit, whose value fits in a `usize`; `None` otherwise.
pub open spec fn parse_usize_spec(s: Seq<char>) -> Option<usize> {
    let body = if s.len() > 0 && s[0] == '+' {
        s.drop_first()
    } else {
        s
    };
    if body.len() > 0 && all_ascii_digits(body) && decimal_value(body) <= usize::MAX {
        Some(decimal_value(body) as usize)
    } else {
        None
    }
}

/// Length of the longest prefix of `s` made of numeric characters.
pub open spec fn numeric_prefix_len(s: Seq<char>) -> nat
    decreases s.len(),
{
    if s.len() > 0 && numeric(s[0]) {
        1 + numeric_prefix_len(s.drop_first())
    } else {
        0
    }
}

/// The count in front of a command: the numeric prefix parsed as a `usize`
/// (`None` when there is no prefix or it does not parse), and the rest.
pub open spec fn extract_count_spec(s: Seq<char>) -> (Option<usize>, Seq<char>) {
    let k = numeric_prefix_len(s);
    if k == 0 {
        (None, s)
    } else {
        (parse_usize_spec(s.take(k as int)), s.skip(k as int))
    }
}

/// Decimal digits of `n`, most significant first, without leading zeros.
pub open spec fn decimal_chars(n: nat) -> Seq<char>
    decreases n,
{
    if n < 10 {
        seq![digit_char(n)]
    } else {
        decimal_chars(n / 10).push(digit_char(n % 10))
    }
}

pub open spec fn digit_char(d: nat) -> char {
    if d == 0 {
        '0'
    } else if d == 1 {
        '1'
    } else if d == 2 {
        '2'
    } else if d == 3 {
        '3'
    } else if d == 4 {
        '4'
    } else if d == 5 {
        '5'
    } else if d == 6 {
        '6'
    } else if d == 7 {
        '7'
    } else if d == 8 {
        '8'
    } else {
        '9'
    }
}

pub proof fn lemma_numeric_prefix_bound(s: Seq<char>)
    ensures
        numeric_prefix_len(s) <= s.len(),
        forall|i: int| 0 <= i < numeric_prefix_len(s) ==> numeric(#[trigger] s[i]),
        numeric_prefix_len(s) < s.len() ==> !numeric(s[numeric_prefix_len(s) as int]),
    decreases s.len(),
{
    if s.len() > 0 && numeric(s[0]) {
        lemma_numeric_prefix_bound(s.drop_first());
        assert forall|i: int| 0 <= i < numeric_prefix_len(s) implies numeric(#[trigger] s[i]) by {
            if i > 0 {
                assert(s[i] == s.drop_first()[i - 1]);
            }
        }
    }
}

proof fn lemma_numeric_prefix_exact(s: Seq<char>, k: int)
    requires
        0 <= k <= s.len(),
        forall|i: int| 0 <= i < k ==> numeric(#[trigger] s[i]),
        k == s.len() || !numeric(s[k]),
    ensures
        numeric_prefix_len(s) == k,
    decreases s.len(),
{
    if k > 0 {
        assert(numeric(s[0]));
        assert forall|i: int| 0 <= i < k - 1 implies numeric(#[trigger] s.drop_first()[i]) by {
            assert(s.drop_first()[i] == s[i + 1]);
        }
        if k - 1 < s.drop_first().len() {
            assert(s.drop_first()[k - 1] == s[k]);
        }
        lemma_numeric_prefix_exact(s.drop_first(), k - 1);
    }
}

/// Length of the numeric prefix of `v`.
pub fn numeric_prefix(v: &[char]) -> (k: usize)
    ensures
        k == numeric_prefix_len(v@),
{
    let mut k: usize = 0;
    while k < v.len() && is_numeric(v[k])
        invariant
            k <= v.len(),
            forall|i: int| 0 <= i < k ==> numeric(#[trigger] v@[i]),
        decreases v.len() - k,
    {
        k = k + 1;
    }
    proof {
        lemma_numeric_prefix_exact(v@, k as int);
    }
    k
}

/// `str::parse::<usize>` on the characters `v[from..to]`.
pub fn parse_usize(v: &[char], from: usize, to: usize) -> (r: Option<usize>)
    requires
        from <= to <= v.len(),
    ensures
        r == parse_usize_spec(v@.subrange(from as int, to as int)),
{
    let ghost s = v@.subrange(from as int, to as int);
    let mut start = from;
    if from < to && v[from] == '+' {
        start = from + 1;
    }
    let ghost body = v@.subrange(start as int, to as int);
    proof {
        if from < to && v@[from as int] == '+' {
            assert(body =~= s.drop_first());
        } else {
            assert(body =~= s);
        }
    }
    let ghost expected = if body.len() > 0 && all_ascii_digits(body) && decimal_value(body)
        <= usize::MAX {
        Some(decimal_value(body) as usize)
    } else {
        None
    };
    assert(expected == parse_usize_spec(s));
    if start == to {
        return None;
    }
    let mut value: usize = 0;
    let mut i = start;
    while i < to
        invariant
            from <= start <= i <= to <= v.len(),
            body == v@.subrange(start as int, to as int),
            s == v@.subrange(from as int, to as int),
            expected == parse_usize_spec(s),
            expected == (if body.len() > 0 && all_ascii_digits(body) && decimal_value(body)
                <= usize::MAX {
                Some(decimal_value(body) as usize)
            } else {
                None
            }),
            all_ascii_digits(v@.subrange(start as int, i as int)),
            value == decimal_value(v@.subrange(start as int, i as int)),
        decreases to - i,
    {
        let c = v[i];
        let ghost pre = v@.subrange(start as int, i as int);
        proof {
            assert(v@.subrange(start as int, i + 1) =~= pre.push(c));
            assert(v@.subrange(start as int, i + 1).drop_last() =~= pre);
        }
        if !('0' <= c && c <= '9') {
            proof {
                assert(body[i - start] == c);
                assert(!is_ascii_digit(body[i - start]));
            }
            return None;
        }
        let d: u32 = (c as u32) - ('0' as u32);
        if value > (usize::MAX - d as usize) / 10 {
            proof {
                assert(decimal_value(pre.push(c)) == value * 10 + d);
                assert(value * 10 + d > usize::MAX) by (nonlinear_arith)
                    requires
                        value > (usize::MAX - d) / 10,
                        d < 10,
                ;
                assert(body.take((i + 1 - start) as int) =~= pre.push(c));
                assert(all_ascii_digits(pre.push(c))) by {
                    assert forall|j: int| 0 <= j < pre.push(c).len() implies is_ascii_digit(
                        #[trigger] pre.push(c)[j],
                    ) by {
                        if j < pre.len() {
                            assert(pre.push(c)[j] == pre[j]);
                        }
                    }
                }
                lemma_decimal_value_monotone(body, (i + 1 - start) as int);
            }
            return None;
        }
        proof {
            assert(value * 10 + d <= usize::MAX) by (nonlinear_arith)
                requires
                    value <= (usize::MAX - d) / 10,
                    d < 10,
            ;
        }
        value = value * 10 + d as usize;
        i = i + 1;
    }
    proof {
        assert(v@.subrange(start as int, to as int) =~= body);
    }
    Some(value)
}

proof fn lemma_decimal_value_monotone(s: Seq<char>, k: int)
    requires
        0 <= k <= s.len(),
        all_ascii_digits(s.take(k)),
    ensures
        decimal_value(s.take(k)) <= decimal_value(s) || !all_ascii_digits(s),
    decreases s.len() - k,
{
    if k < s.len() && all_ascii_digits(s) {
        assert(s.take(k + 1).drop_last() =~= s.take(k));
        assert(all_ascii_digits(s.take(k + 1)));
        lemma_decimal_value_monotone(s, k + 1);
        assert(decimal_value(s.take(k + 1)) == decimal_value(s.take(k)) * 10 + digit_value(
            s[k],
        ));
    } else if k == s.len() {
        assert(s.take(k) =~= s);
    }
}

/// Splits `input` into its leading count and the rest, as a command reader
/// does with `3w`: see `extract_count_spec`.
pub fn extract_count(input: &[char]) -> (r: (Option<usize>, Vec<char>))
    ensures
        r.0 == extract_count_spec(input@).0,
        r.1@ == extract_count_spec(input@).1,
{
    let k = numeric_prefix(input);
    proof {
        lemma_numeric_prefix_bound(input@);
    }
    let mut rest: Vec<char> = Vec::new();
    let mut i = k;
    while i < input.len()
        invariant
            k <= i <= input.len(),
            rest@ == input@.subrange(k as int, i as int),
        decreases input.len() - i,
    {
        rest.push(input[i]);
        i = i + 1;
    }
    proof {
        assert(rest@ =~= input@.skip(k as int));
    }
    if k == 0 {
        proof {
            assert(input@.skip(0) =~= input@);
        }
        (None, rest)
    } else {
        let count = parse_usize(input, 0, k);
        proof {
            assert(input@.subrange(0, k as int) =~= input@.take(k as int));
        }
        (count, rest)
    }
}

/// Decimal rendering of `n`.
pub fn decimal(n: usize) -> (r: Vec<char>)
    ensures
        r@ == decimal_chars(n as nat),
    decreases n,
{
    let d = n % 10;
    let c = if d == 0 {
        '0'
    } else if d == 1 {
        '1'
    } else if d == 2 {
        '2'
    } else if d == 3 {
        '3'
    } else if d == 4 {
        '4'
    } else if d == 5 {
        '5'
    } else if d == 6 {
        '6'
    } else if d == 7 {
        '7'
    } else if d == 8 {
        '8'
    } else {
        '9'
    };
    if n < 10 {
        vec![c]
    } else {
        let mut r = decimal(n / 10);
        r.push(c);
        r
    }
}

proof fn lemma_digit_char(d: nat)
    requires
        d < 10,
    ensures
        is_ascii_digit(digit_char(d)),
        digit_value(digit_char(d)) == d,
{
}

pub proof fn lemma_decimal_chars(n: nat)
    ensures
        decimal_chars(n).len() > 0,
        all_ascii_digits(decimal_chars(n)),
        decimal_value(decimal_chars(n)) == n,
    decreases n,
{
    if n < 10 {
        lemma_digit_char(n);
        assert(decimal_chars(n).drop_last() =~= Seq::<char>::empty());
        assert(decimal_value(Seq::<char>::empty()) == 0);
    } else {
        let s = decimal_chars(n / 10);
        lemma_decimal_chars(n / 10);
        lemma_digit_char(n % 10);
        let t = s.push(digit_char(n % 10));
        assert(decimal_chars(n) == t);
        assert(t.drop_last() =~= s);
        assert(t.last() == digit_char(n % 10));
        assert(decimal_value(t) == decimal_value(s) * 10 + digit_value(digit_char(n % 10)));
        assert(all_ascii_digits(t)) by {
            assert forall|i: int| 0 <= i < t.len() implies is_ascii_digit(#[trigger] t[i]) by {
                if i < s.len() {
                    assert(t[i] == s[i]);
                }
            }
        }
        assert(n == (n / 10) * 10 + n % 10) by (nonlinear_arith);
    }
}

/// Reading back the decimal digits of a number gives the number.
pub proof fn law_decimal_roundtrip(n: usize)
    ensures
        parse_usize_spec(decimal_chars(n as nat)) == Some(n),
{
    lemma_decimal_chars(n as nat);
    let s = decimal_chars(n as nat);
    assert(is_ascii_digit(s[0]));
}

} // verus!
