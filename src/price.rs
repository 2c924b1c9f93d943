//! Prices in minor currency units (cents), read from and written as decimal text.
use vstd::prelude::*;
use vstd::string::*;

verus! {

pub open spec fn is_digit(c: char) -> bool {
    '0' <= c && c <= '9'
}

pub open spec fn all_digits(s: Seq<char>) -> bool {
    forall|i: int| 0 <= i < s.len() ==> is_digit(#[trigger] s[i])
}

pub open spec fn digit_value(c: char) -> int {
    c as int - '0' as int
}

/// The number that a string of decimal digits denotes.
pub open spec fn digits_value(s: Seq<char>) -> int
    decreases s.len(),
{
    if s.len() == 0 {
        0
    } else {
        digits_value(s.drop_last()) * 10 + digit_value(s.last())
    }
}

/// Minor units that a fractional part of one or two digits stands for: `3` is 30, `03` is 3.
pub open spec fn fraction_value(f: Seq<char>) -> int {
    if f.len() == 1 {
        digits_value(f) * 10
    } else {
        digits_value(f)
    }
}

/// `s` has its separating dot at `k`, digits on both sides, and one or two digits after it.
pub open spec fn price_dot_at(s: Seq<char>, k: int) -> bool {
    &&& 0 <= k < s.len()
    &&& s[k] == '.'
    &&& all_digits(s.take(k))
    &&& all_digits(s.skip(k + 1))
    &&& 1 <= s.len() - (k + 1) <= 2
}

/// The amount in minor units that a price text denotes, or `None` when it is malformed.
pub open spec fn price_value(s: Seq<char>) -> Option<int> {
    if all_digits(s) {
        if s.len() > 0 {
            Some(digits_value(s) * 100)
        } else {
            None
        }
    } else if exists|k: int| price_dot_at(s, k) {
        let k = choose|k: int| price_dot_at(s, k);
        Some(digits_value(s.take(k)) * 100 + fraction_value(s.skip(k + 1)))
    } else {
        None
    }
}

pub open spec fn digit_char(d: int) -> char {
    if d == 0 {
        '0'
    } else if d == 1 {
        '1'
    } else if d == 2 {
        '2'
    } else if d == 3 {
        '3'
    } else if d == 4 {
        '4'
    } else if d == 5 {
        '5'
    } else if d == 6 {
        '6'
    } else if d == 7 {
        '7'
    } else if d == 8 {
        '8'
    } else {
        '9'
    }
}

/// What reading a price text gives: its amount, where the text is well formed and the
/// amount fits in a `u32`.
pub open spec fn price_cents(s: Seq<char>) -> Option<u32> {
    match price_value(s) {
        Some(v) => if v <= u32::MAX {
            Some(v as u32)
        } else {
            None
        },
        None => None,
    }
}

/// Decimal digits of `n`, without leading zeros.
pub open spec fn digits_of(n: nat) -> Seq<char>
    decreases n,
{
    if n < 10 {
        seq![digit_char(n as int)]
    } else {
        digits_of(n / 10).push(digit_char((n % 10) as int))
    }
}

/// How an amount in minor units is displayed: major units, a dot, two digits of minor units.
pub open spec fn price_display(v: nat) -> Seq<char> {
    digits_of(v / 100) + seq!['.', digit_char(((v % 100) / 10) as int), digit_char((v % 10) as int)]
}

proof fn lemma_price_dot_unique(s: Seq<char>, k1: int, k2: int)
    requires
        price_dot_at(s, k1),
        price_dot_at(s, k2),
    ensures
        k1 == k2,
{
    if k1 < k2 {
        assert(s.take(k2)[k1] == '.');
    } else if k2 < k1 {
        assert(s.take(k1)[k2] == '.');
    }
}

proof fn lemma_digits_value_nonneg(s: Seq<char>)
    requires
        all_digits(s),
    ensures
        digits_value(s) >= 0,
    decreases s.len(),
{
    if s.len() > 0 {
        assert(all_digits(s.drop_last())) by {
            assert forall|i: int| 0 <= i < s.drop_last().len() implies is_digit(
                #[trigger] s.drop_last()[i],
            ) by {
                assert(s.drop_last()[i] == s[i]);
            }
        }
        lemma_digits_value_nonneg(s.drop_last());
        assert(is_digit(s[s.len() - 1]));
    }
}

proof fn lemma_digits_value_prefix(s: Seq<char>, j: int)
    requires
        all_digits(s),
        0 <= j <= s.len(),
    ensures
        digits_value(s.take(j)) <= digits_value(s),
    decreases s.len(),
{
    if j == s.len() {
        assert(s.take(j) =~= s);
    } else {
        let t = s.drop_last();
        assert(all_digits(t)) by {
            assert forall|i: int| 0 <= i < t.len() implies is_digit(#[trigger] t[i]) by {
                assert(t[i] == s[i]);
            }
        }
        lemma_digits_value_prefix(t, j);
        assert(t.take(j) =~= s.take(j));
        lemma_digits_value_nonneg(t);
        assert(is_digit(s[s.len() - 1]));
    }
}

/// Reads the digits of `s` between `from` and `to`; `None` when one is not a digit or
/// the number exceeds `u32::MAX`.
pub(crate) fn parse_digits(s: &str, from: usize, to: usize) -> (r: Option<u64>)
    requires
        from <= to <= s@.len(),
    ensures
        r is Some <==> (all_digits(s@.subrange(from as int, to as int)) && digits_value(
            s@.subrange(from as int, to as int),
        ) <= u32::MAX),
        r is Some ==> r->0 == digits_value(s@.subrange(from as int, to as int)),
{
    let ghost full = s@.subrange(from as int, to as int);
    let mut v: u64 = 0;
    let mut i: usize = from;
    while i < to
        invariant
            from <= i <= to <= s@.len(),
            full == s@.subrange(from as int, to as int),
            all_digits(s@.subrange(from as int, i as int)),
            v == digits_value(s@.subrange(from as int, i as int)),
            v <= u32::MAX,
        decreases to - i,
    {
        let c = s.get_char(i);
        if c < '0' || c > '9' {
            assert(full[i - from] == c);
            return None;
        }
        let d: u64 = (c as u32 - '0' as u32) as u64;
        let ghost prev = s@.subrange(from as int, i as int);
        let ghost next = s@.subrange(from as int, i + 1);
        assert(next.drop_last() =~= prev);
        assert(next.last() == c);
        assert(all_digits(next)) by {
            assert forall|k: int| 0 <= k < next.len() implies is_digit(#[trigger] next[k]) by {
                if k < prev.len() {
                    assert(next[k] == prev[k]);
                }
            }
        }
        v = v * 10 + d;
        if v > 0xffff_ffff {
            proof {
                if all_digits(full) {
                    assert(full.take(next.len() as int) =~= next);
                    lemma_digits_value_prefix(full, next.len() as int);
                }
            }
            return None;
        }
        i = i + 1;
    }
    assert(s@.subrange(from as int, i as int) =~= full);
    Some(v)
}

/// Reads a price written as major units, optionally followed by a dot and one or two
/// digits of minor units, and returns the amount in minor units.
///
/// Either side of the dot may be empty, but not both, and the text must not be empty.
/// Anything but digits and one dot is refused, as is an amount above `u32::MAX`.
pub fn parse_price(text: &str) -> (r: Option<u32>)
    ensures
        r is Some <==> (price_value(text@) is Some && price_value(text@)->0 <= u32::MAX),
        r is Some ==> r->0 == price_value(text@)->0,
        r == price_cents(text@),
{
    let n = text.unicode_len();
    let mut k: usize = 0;
    while k < n && text.get_char(k) != '.'
        invariant
            k <= n == text@.len(),
            forall|j: int| 0 <= j < k ==> text@[j] != '.',
        decreases n - k,
    {
        k = k + 1;
    }
    if k == n {
        assert(text@.subrange(0, n as int) =~= text@);
        if n == 0 {
            assert(all_digits(text@));
            return None;
        }
        proof {
            if exists|d: int| price_dot_at(text@, d) {
                let d = choose|d: int| price_dot_at(text@, d);
                assert(text@[d] == '.');
            }
        }
        let whole = parse_digits(text, 0, n);
        match whole {
            None => None,
            Some(w) => {
                if w * 100 > 0xffff_ffff {
                    None
                } else {
                    Some((w * 100) as u32)
                }
            },
        }
    } else {
        assert(text@[k as int] == '.');
        assert(!all_digits(text@));
        let ghost s = text@;
        assert(s.take(k as int) =~= s.subrange(0, k as int));
        assert(s.skip(k + 1) =~= s.subrange(k + 1, n as int));
        proof {
            assert forall|d: int| price_dot_at(s, d) implies d == k by {
                if d > k {
                    assert(s.take(d)[k as int] == '.');
                }
            }
        }
        if n - (k + 1) < 1 || n - (k + 1) > 2 {
            return None;
        }
        let major = parse_digits(text, 0, k);
        let minor = parse_digits(text, k + 1, n);
        match (major, minor) {
            (Some(a), Some(b)) => {
                assert(price_dot_at(s, k as int));
                let frac: u64 = if n - (k + 1) == 1 {
                    b * 10
                } else {
                    b
                };
                if a * 100 + frac > 0xffff_ffff {
                    None
                } else {
                    Some((a * 100 + frac) as u32)
                }
            },
            (None, _) => {
                proof {
                    if all_digits(s.take(k as int)) && all_digits(s.skip(k + 1)) {
                        lemma_digits_value_nonneg(s.skip(k + 1));
                    }
                }
                None
            },
            (_, None) => {
                proof {
                    if all_digits(s.skip(k + 1)) && all_digits(s.take(k as int)) {
                        lemma_digits_value_nonneg(s.take(k as int));
                    }
                }
                None
            },
        }
    }
}

fn digit_char_of(d: u64) -> (c: char)
    requires
        d < 10,
    ensures
        c == digit_char(d as int),
{
    if d == 0 {
        '0'
    } else if d == 1 {
        '1'
    } else if d == 2 {
        '2'
    } else if d == 3 {
        '3'
    } else if d == 4 {
        '4'
    } else if d == 5 {
        '5'
    } else if d == 6 {
        '6'
    } else if d == 7 {
        '7'
    } else if d == 8 {
        '8'
    } else {
        '9'
    }
}

/// Relies on `char::to_string` (through `Display` for `char`): a string of that one character.
#[verifier::external_body]
fn char_to_string(c: char) -> (r: String)
    ensures
        r@ == seq![c],
{
    c.to_string()
}

fn digits_string(n: u64) -> (r: String)
    ensures
        r@ == digits_of(n as nat),
    decreases n,
{
    if n < 10 {
        char_to_string(digit_char_of(n))
    } else {
        let mut r = digits_string(n / 10);
        let last = char_to_string(digit_char_of(n % 10));
        r.append(last.as_str());
        r
    }
}

/// Writes an amount in minor units as major units, a dot and two digits: 150 is `1.50`.
pub fn print_price(cents: u64) -> (r: String)
    ensures
        r@ == price_display(cents as nat),
{
    let mut r = digits_string(cents / 100);
    let dot = char_to_string('.');
    let tens = char_to_string(digit_char_of((cents % 100) / 10));
    let ones = char_to_string(digit_char_of(cents % 10));
    r.append(dot.as_str());
    r.append(tens.as_str());
    r.append(ones.as_str());
    assert(r@ =~= price_display(cents as nat));
    r
}

proof fn lemma_digit_char(d: int)
    requires
        0 <= d < 10,
    ensures
        is_digit(digit_char(d)),
        digit_value(digit_char(d)) == d,
{
}

proof fn lemma_digits_of(n: nat)
    ensures
        all_digits(digits_of(n)),
        digits_value(digits_of(n)) == n,
        digits_of(n).len() > 0,
    decreases n,
{
    if n < 10 {
        lemma_digit_char(n as int);
        assert(digits_of(n).drop_last() =~= Seq::<char>::empty());
        assert(digits_value(Seq::<char>::empty()) == 0);
        assert(digits_value(digits_of(n)) == digit_value(digit_char(n as int)));
    } else {
        lemma_digits_of(n / 10);
        lemma_digit_char((n % 10) as int);
        let s = digits_of(n);
        assert(s.drop_last() =~= digits_of(n / 10));
        assert(s.last() == digit_char((n % 10) as int));
        assert(digits_value(s) == digits_value(digits_of(n / 10)) * 10 + digit_value(s.last()));
        assert((n / 10) * 10 + n % 10 == n) by (nonlinear_arith);
        assert forall|i: int| 0 <= i < s.len() implies is_digit(#[trigger] s[i]) by {
            if i < s.len() - 1 {
                assert(s[i] == digits_of(n / 10)[i]);
            }
        }
    }
}

/// Displaying an amount and reading the text back gives the amount again.
pub proof fn lemma_display_parses_back(v: nat)
    ensures
        price_value(price_display(v)) == Some(v as int),
{
    let d = digits_of(v / 100);
    let a = digit_char(((v % 100) / 10) as int);
    let b = digit_char((v % 10) as int);
    let s = price_display(v);
    let k = d.len() as int;
    lemma_digits_of(v / 100);
    lemma_digit_char(((v % 100) / 10) as int);
    lemma_digit_char((v % 10) as int);
    assert(s.take(k) =~= d);
    assert(s.skip(k + 1) =~= seq![a, b]);
    assert(s[k] == '.');
    assert(!is_digit(s[k]));
    assert(price_dot_at(s, k));
    let f = seq![a, b];
    assert(f.drop_last() =~= seq![a]);
    assert(seq![a].drop_last() =~= Seq::<char>::empty());
    assert(digits_value(Seq::<char>::empty()) == 0);
    assert(digits_value(seq![a]) == digit_value(a));
    assert(digits_value(f) == digit_value(a) * 10 + digit_value(b));
    let c = choose|c: int| price_dot_at(s, c);
    lemma_price_dot_unique(s, c, k);
    assert((v / 100) * 100 + ((v % 100) / 10) * 10 + v % 10 == v) by (nonlinear_arith);
}

/// A well-formed price text, read and displayed again, gives a canonical text that
/// reads back to the same amount.
pub proof fn lemma_price_round_trip(text: Seq<char>)
    requires
        price_value(text) is Some,
        price_value(text)->0 <= u32::MAX,
    ensures
        price_value(text)->0 >= 0,
        price_value(price_display(price_value(text)->0 as nat)) == price_value(text),
{
    if all_digits(text) {
        lemma_digits_value_nonneg(text);
    } else {
        let k = choose|k: int| price_dot_at(text, k);
        lemma_digits_value_nonneg(text.take(k));
        lemma_digits_value_nonneg(text.skip(k + 1));
    }
    lemma_display_parses_back(price_value(text)->0 as nat);
}

/// A price text is refused when it is empty, holds two dots, has a dot followed by no
/// digit or by more than two characters, or holds anything but digits and dots.
pub proof fn lemma_price_rejections(s: Seq<char>)
    ensures
        s.len() == 0 ==> price_value(s) is None,
        (exists|a: int, b: int| 0 <= a < b < s.len() && s[a] == '.' && s[b] == '.')
            ==> price_value(s) is None,
        (exists|k: int|
            0 <= k < s.len() && s[k] == '.' && (s.len() - (k + 1) == 0 || s.len() - (k + 1) > 2))
            ==> price_value(s) is None,
        (exists|k: int| 0 <= k < s.len() && !is_digit(s[k]) && s[k] != '.') ==> price_value(
            s,
        ) is None,
{
    assert forall|k: int, d: int| 0 <= k < s.len() && !is_digit(s[k]) && price_dot_at(s, d) && k != d
        implies false by {
        if k < d {
            assert(s.take(d)[k] == s[k]);
        } else {
            assert(s.skip(d + 1)[k - d - 1] == s[k]);
        }
    }
    if exists|a: int, b: int| 0 <= a < b < s.len() && s[a] == '.' && s[b] == '.' {
        let (a, b) = choose|a: int, b: int| 0 <= a < b < s.len() && s[a] == '.' && s[b] == '.';
        assert(!is_digit(s[a]));
        assert(!exists|d: int| price_dot_at(s, d)) by {
            if exists|d: int| price_dot_at(s, d) {
                let d = choose|d: int| price_dot_at(s, d);
                if d == a {
                    assert(!is_digit(s[b]));
                } else {
                    assert(!is_digit(s[a]));
                }
            }
        }
    }
    if exists|k: int|
        0 <= k < s.len() && s[k] == '.' && (s.len() - (k + 1) == 0 || s.len() - (k + 1) > 2) {
        let k = choose|k: int|
            0 <= k < s.len() && s[k] == '.' && (s.len() - (k + 1) == 0 || s.len() - (k + 1) > 2);
        assert(!is_digit(s[k]));
        assert(!exists|d: int| price_dot_at(s, d)) by {
            if exists|d: int| price_dot_at(s, d) {
                let d = choose|d: int| price_dot_at(s, d);
                assert(d == k);
            }
        }
    }
    if exists|k: int| 0 <= k < s.len() && !is_digit(s[k]) && s[k] != '.' {
        let k = choose|k: int| 0 <= k < s.len() && !is_digit(s[k]) && s[k] != '.';
        assert(!exists|d: int| price_dot_at(s, d)) by {
            if exists|d: int| price_dot_at(s, d) {
                let d = choose|d: int| price_dot_at(s, d);
                assert(d != k);
            }
        }
    }
}

} // verus!
