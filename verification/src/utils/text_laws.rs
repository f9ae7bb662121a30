//! Texts that stand for numbers, and texts in which another one is replaced.
use crate::utils::text;
use vstd::prelude::*;

verus! {

/// The digits that write `n`, without zeros in front.
pub open spec fn decimal(n: nat) -> Seq<char>
    decreases n,
{
    let digit = (48 + n % 10) as char;
    if n < 10 {
        seq![digit]
    } else {
        decimal(n / 10).push(digit)
    }
}

pub proof fn lemma_decimal(n: nat)
    ensures
        decimal(n).len() > 0,
        text::digits_value(decimal(n)) == n,
        forall|k: int| 0 <= k < decimal(n).len() ==> text::is_digit(#[trigger] decimal(n)[k]),
    decreases n,
{
    let digit = (48 + n % 10) as char;
    assert(digit as nat - '0' as nat == n % 10);
    if n < 10 {
        let s = seq![digit];
        assert(s.drop_last() =~= Seq::empty());
        assert(text::digits_value(s.drop_last()) == 0);
    } else {
        lemma_decimal(n / 10);
        let s = decimal(n);
        assert(s.drop_last() =~= decimal(n / 10));
        assert forall|k: int| 0 <= k < s.len() implies text::is_digit(#[trigger] s[k]) by {
            if k < s.len() - 1 {
                assert(s[k] == decimal(n / 10)[k]);
            }
        }
    }
}

/// A number is read back from the digits that write it.
pub proof fn numbers_are_read_back(n: nat)
    requires
        n <= usize::MAX,
    ensures
        text::number_of(decimal(n)) == Some(n as usize),
{
    lemma_decimal(n);
    let s = decimal(n);
    assert(text::is_digit(s[0]));
    assert(text::number_digits(s) == s);
}

/// A plus sign in front of a number makes no difference, and a number without digits is none.
pub proof fn a_plus_sign_makes_no_difference(n: nat)
    requires
        n <= usize::MAX,
    ensures
        text::number_of(seq!['+'] + decimal(n)) == Some(n as usize),
        text::number_of(seq!['+']) is None,
        text::number_of(Seq::empty()) is None,
{
    lemma_decimal(n);
    let s = seq!['+'] + decimal(n);
    assert(text::number_digits(s) =~= decimal(n));
    assert(text::number_digits(seq!['+']) =~= Seq::empty());
}

/// A text with anything but digits behind its first character is no number, nor is one that begins
/// with anything but a digit or a plus sign.
pub proof fn only_digits_write_a_number(s: Seq<char>, i: int)
    requires
        0 <= i < s.len(),
        !text::is_digit(s[i]),
        i == 0 ==> s[0] != '+',
    ensures
        text::number_of(s) is None,
{
    let digits = text::number_digits(s);
    if s[0] == '+' {
        assert(!text::is_digit(digits[i - 1]));
    } else {
        assert(!text::is_digit(digits[i]));
    }
}

/// A number that no machine word holds is none.
pub proof fn a_number_may_be_too_large(n: nat)
    requires
        n > usize::MAX,
    ensures
        text::number_of(decimal(n)) is None,
{
    lemma_decimal(n);
    assert(text::is_digit(decimal(n)[0]));
    assert(text::number_digits(decimal(n)) == decimal(n));
}

proof fn lemma_replaced_skips(s: Seq<char>, key: Seq<char>, value: Seq<char>, n: int, i: int)
    requires
        0 <= n <= i <= s.len(),
        key.len() > 0,
    ensures
        text::replaced_from(s, key, value, i) == text::replaced_from(s.skip(n), key, value, i - n),
    decreases s.len() - i,
{
    let rest = s.skip(n);
    if i < s.len() {
        assert(text::occurs_at(s, key, i) == text::occurs_at(rest, key, i - n)) by {
            if i + key.len() <= s.len() {
                assert(s.subrange(i, i + key.len()) =~= rest.subrange(
                    i - n,
                    i - n + key.len(),
                ));
            }
        }
        if text::occurs_at(s, key, i) {
            lemma_replaced_skips(s, key, value, n, i + key.len());
        } else {
            lemma_replaced_skips(s, key, value, n, i + 1);
        }
    }
}

proof fn lemma_replaced_first(s: Seq<char>, key: Seq<char>, value: Seq<char>, i: int, p: int)
    requires
        0 <= i <= p <= s.len(),
        key.len() > 0,
        p < s.len() ==> p + key.len() <= s.len() && s.subrange(p, p + key.len()) == key,
        forall|q: int|
            i <= q < p && q + key.len() <= s.len() ==> #[trigger] s.subrange(q, q + key.len())
                != key,
    ensures
        text::replaced_from(s, key, value, i) == if p < s.len() {
            s.subrange(i, p) + value + text::replaced_from(s, key, value, p + key.len())
        } else {
            s.subrange(i, p)
        },
    decreases p - i,
{
    if i < p {
        assert(!text::occurs_at(s, key, i));
        lemma_replaced_first(s, key, value, i + 1, p);
        assert(s.subrange(i, p) =~= seq![s[i]] + s.subrange(i + 1, p));
        if p < s.len() {
            let tail = text::replaced_from(s, key, value, p + key.len());
            assert(seq![s[i]] + (s.subrange(i + 1, p) + value + tail) =~= s.subrange(i, p) + value
                + tail);
        }
    } else if p < s.len() {
        assert(text::occurs_at(s, key, p));
        let tail = text::replaced_from(s, key, value, p + key.len());
        assert(s.subrange(i, p) + value + tail =~= value + tail);
    } else {
        assert(s.subrange(i, p) =~= Seq::empty());
    }
}

/// Where a key stands in a text, the first one is replaced and then those in what stands behind it;
/// where it does not, the text stays.
pub proof fn keys_are_replaced_from_the_left(
    s: Seq<char>,
    key: Seq<char>,
    value: Seq<char>,
    p: int,
)
    requires
        key.len() > 0,
        0 <= p <= s.len(),
        p < s.len() ==> p + key.len() <= s.len() && s.subrange(p, p + key.len()) == key,
        forall|q: int|
            0 <= q < p && q + key.len() <= s.len() ==> #[trigger] s.subrange(q, q + key.len())
                != key,
    ensures
        p < s.len() ==> text::replaced_from(s, key, value, 0) == s.take(p) + value
            + text::replaced_from(s.skip(p + key.len()), key, value, 0),
        p == s.len() ==> text::replaced_from(s, key, value, 0) == s,
{
    lemma_replaced_first(s, key, value, 0, p);
    assert(s.subrange(0, p) =~= s.take(p));
    if p < s.len() {
        lemma_replaced_skips(s, key, value, p + key.len(), p + key.len());
    } else {
        assert(s.take(p) =~= s);
    }
}

} // verus!
