//! Plain operations on text.
use vstd::prelude::*;
use vstd::string::{StrSliceExecFns, StringExecFns};

verus! {

/// What an optional text holds.
pub open spec fn text_of(text: Option<String>) -> Option<Seq<char>> {
    match text {
        Some(text) => Some(text@),
        None => None,
    }
}

/// Whether two texts are the same.
pub fn same_text(a: &str, b: &str) -> (same: bool)
    ensures
        same == (a@ == b@),
{
    a.to_owned() == b.to_owned()
}

/// `s` has `key` at place `i`.
pub open spec fn occurs_at(s: Seq<char>, key: Seq<char>, i: int) -> bool {
    0 <= i && i + key.len() <= s.len() && s.subrange(i, i + key.len()) == key
}

/// `key` stands somewhere in `s`.
pub open spec fn occurs_in(s: Seq<char>, key: Seq<char>) -> bool {
    exists|i: int| #[trigger] occurs_at(s, key, i)
}

/// The characters of a text.
pub fn chars_of(s: &str) -> (chars: Vec<char>)
    ensures
        chars@ == s@,
{
    let mut chars: Vec<char> = Vec::new();
    for c in iter: s.chars()
        invariant
            iter.seq() == s@,
            chars@ == s@.take(iter.index() as int),
    {
        chars.push(c);
        assert(chars@ =~= s@.take(iter.index() + 1));
    }
    chars
}

/// Whether `s` has `key` at place `i`.
pub fn is_at(s: &str, key: &str, i: usize) -> (at: bool)
    ensures
        at == occurs_at(s@, key@, i as int),
{
    let n = s.unicode_len();
    let m = key.unicode_len();
    if i > n || m > n - i {
        return false;
    }
    same_text(s.substring_char(i, i + m), key)
}

/// Whether the characters `s` have `key` at place `i`.
fn stands_at(s: &Vec<char>, key: &Vec<char>, i: usize) -> (at: bool)
    ensures
        at == occurs_at(s@, key@, i as int),
{
    let n = s.len();
    if i > n || key.len() > n - i {
        return false;
    }
    let ghost there = s@.subrange(i as int, i + key@.len());
    let mut j: usize = 0;
    while j < key.len()
        invariant
            j <= key@.len(),
            n == s@.len(),
            i + key@.len() <= n,
            there == s@.subrange(i as int, i + key@.len()),
            forall|k: int| 0 <= k < j ==> there[k] == key@[k],
        decreases key@.len() - j,
    {
        assert(there[j as int] == s@[i + j]);
        if s[i + j] != key[j] {
            return false;
        }
        j = j + 1;
    }
    assert(there =~= key@);
    true
}

/// Whether the characters `s` have the text `key` at place `i`.
pub fn have_at(s: &Vec<char>, key: &str, i: usize) -> (at: bool)
    ensures
        at == occurs_at(s@, key@, i as int),
{
    stands_at(s, &chars_of(key), i)
}

/// Whether the characters `s` spell the text `key`.
pub fn spell(s: &Vec<char>, key: &str) -> (same: bool)
    ensures
        same == (s@ == key@),
{
    let wanted = chars_of(key);
    let same = s.len() == wanted.len() && stands_at(s, &wanted, 0);
    assert(s@.len() == key@.len() ==> s@.subrange(0, key@.len() as int) =~= s@);
    same
}

/// Whether `key` stands somewhere in `s`.
pub fn contains(s: &str, key: &str) -> (found: bool)
    ensures
        found == occurs_in(s@, key@),
{
    let chars = chars_of(s);
    let wanted = chars_of(key);
    let n = chars.len();
    let mut i: usize = 0;
    loop
        invariant
            chars@ == s@,
            wanted@ == key@,
            n == chars@.len(),
            i <= n,
            forall|j: int| 0 <= j < i ==> !#[trigger] occurs_at(s@, key@, j),
        decreases n - i,
    {
        if stands_at(&chars, &wanted, i) {
            assert(occurs_at(s@, key@, i as int));
            return true;
        }
        if i == n {
            assert forall|j: int| !#[trigger] occurs_at(s@, key@, j) by {
            }
            return false;
        }
        i = i + 1;
    }
}

/// Wherever `s` has `key`, it has `longer`.
pub open spec fn goes_on_as(s: Seq<char>, key: Seq<char>, longer: Seq<char>) -> bool {
    forall|i: int| #[trigger] occurs_at(s, key, i) ==> occurs_at(s, longer, i)
}

/// Whether `s` has `longer` wherever it has `key`.
pub fn always_goes_on_as(s: &str, key: &str, longer: &str) -> (always: bool)
    ensures
        always == goes_on_as(s@, key@, longer@),
{
    let chars = chars_of(s);
    let first = chars_of(key);
    let wanted = chars_of(longer);
    let n = chars.len();
    let mut i: usize = 0;
    loop
        invariant
            chars@ == s@,
            first@ == key@,
            wanted@ == longer@,
            n == chars@.len(),
            i <= n,
            forall|j: int|
                0 <= j < i && #[trigger] occurs_at(s@, key@, j) ==> occurs_at(s@, longer@, j),
        decreases n - i,
    {
        if stands_at(&chars, &first, i) && !stands_at(&chars, &wanted, i) {
            assert(occurs_at(s@, key@, i as int));
            return false;
        }
        if i == n {
            return true;
        }
        i = i + 1;
    }
}

/// Somewhere in `s` a digit stands right behind `key`.
pub open spec fn digit_follows(s: Seq<char>, key: Seq<char>) -> bool {
    exists|i: int| #[trigger]
        occurs_at(s, key, i) && i + key.len() < s.len() && is_digit(s[i + key.len()])
}

/// Whether a digit stands right behind `key` somewhere in `s`.
pub fn has_digit_behind(s: &str, key: &str) -> (found: bool)
    ensures
        found == digit_follows(s@, key@),
{
    let chars = chars_of(s);
    let wanted = chars_of(key);
    let n = chars.len();
    let m = wanted.len();
    if m >= n {
        return false;
    }
    let mut i: usize = 0;
    while i < n - m
        invariant
            chars@ == s@,
            wanted@ == key@,
            n == chars@.len(),
            m == wanted@.len(),
            i <= n - m,
            forall|j: int|
                0 <= j < i && #[trigger] occurs_at(s@, key@, j) ==> !is_digit(s@[j + m]),
        decreases n - m - i,
    {
        let c = chars[i + m];
        if '0' <= c && c <= '9' && stands_at(&chars, &wanted, i) {
            assert(occurs_at(s@, key@, i as int));
            return true;
        }
        i = i + 1;
    }
    false
}

/// `s` from place `i` on, with `value` for each `key`, taken from left to right.
pub open spec fn replaced_from(
    s: Seq<char>,
    key: Seq<char>,
    value: Seq<char>,
    i: int,
) -> Seq<char>
    decreases s.len() - i,
{
    if i < 0 || i >= s.len() || key.len() == 0 {
        Seq::empty()
    } else if occurs_at(s, key, i) {
        value + replaced_from(s, key, value, i + key.len())
    } else {
        seq![s[i]] + replaced_from(s, key, value, i + 1)
    }
}

/// `s` with `value` for each `key`, taken from left to right.
pub fn replace(s: &str, key: &str, value: &str) -> (text: String)
    requires
        key@.len() > 0,
    ensures
        text@ == replaced_from(s@, key@, value@, 0),
{
    let n = s.unicode_len();
    let m = key.unicode_len();
    let mut text = String::new();
    let mut i: usize = 0;
    while i < n
        invariant
            n == s@.len(),
            m == key@.len(),
            m > 0,
            i <= n,
            text@ + replaced_from(s@, key@, value@, i as int) == replaced_from(
                s@,
                key@,
                value@,
                0,
            ),
        decreases n - i,
    {
        let ghost before = text@;
        let ghost rest = replaced_from(s@, key@, value@, i as int);
        if is_at(s, key, i) {
            text.append(value);
            i = i + m;
            assert(before + rest =~= text@ + replaced_from(s@, key@, value@, i as int));
        } else {
            text.append(s.substring_char(i, i + 1));
            assert(s@.subrange(i as int, i + 1) =~= seq![s@[i as int]]);
            i = i + 1;
            assert(before + rest =~= text@ + replaced_from(s@, key@, value@, i as int));
        }
    }
    assert(text@ + replaced_from(s@, key@, value@, i as int) =~= text@);
    text
}

/// `c` is a decimal digit.
pub open spec fn is_digit(c: char) -> bool {
    '0' <= c <= '9'
}

/// The number that decimal digits write.
pub open spec fn digits_value(s: Seq<char>) -> nat
    decreases s.len(),
{
    if s.len() == 0 {
        0
    } else {
        10 * digits_value(s.drop_last()) + (s.last() as nat - '0' as nat) as nat
    }
}

/// A number is written with one digit or more, behind one plus sign at most.
pub open spec fn number_digits(s: Seq<char>) -> Seq<char> {
    if s.len() > 0 && s[0] == '+' {
        s.subrange(1, s.len() as int)
    } else {
        s
    }
}

/// The number that `s` writes, if it writes one that a machine word holds.
pub open spec fn number_of(s: Seq<char>) -> Option<usize> {
    let digits = number_digits(s);
    if digits.len() > 0 && (forall|i: int| 0 <= i < digits.len() ==> is_digit(#[trigger] digits[i]))
        && digits_value(digits) <= usize::MAX {
        Some(digits_value(digits) as usize)
    } else {
        None
    }
}

/// More digits write no smaller a number.
proof fn lemma_digits_grow(s: Seq<char>, n: int)
    requires
        0 <= n <= s.len(),
    ensures
        digits_value(s.take(n)) <= digits_value(s),
    decreases s.len() - n,
{
    if n < s.len() {
        assert(s.drop_last().take(n) =~= s.take(n));
        lemma_digits_grow(s.drop_last(), n);
    } else {
        assert(s.take(n) =~= s);
    }
}

/// Reads a number.
pub fn parse_usize(s: &str) -> (number: Option<usize>)
    ensures
        number == number_of(s@),
{
    let n = s.unicode_len();
    let ghost digits = number_digits(s@);
    let first: usize = if n > 0 && s.get_char(0) == '+' {
        1
    } else {
        0
    };
    if first == n {
        return None;
    }
    let mut value: usize = 0;
    let mut i: usize = first;
    while i < n
        invariant
            n == s@.len(),
            first <= i <= n,
            first <= 1,
            digits == s@.subrange(first as int, n as int),
            digits == number_digits(s@),
            digits.len() > 0,
            value == digits_value(digits.take(i - first)),
            forall|j: int| 0 <= j < i - first ==> is_digit(#[trigger] digits[j]),
        decreases n - i,
    {
        let c = s.get_char(i);
        assert(digits[i - first] == c);
        if !('0' <= c && c <= '9') {
            return None;
        }
        proof {
            let more = digits.take(i - first + 1);
            assert(more.drop_last() =~= digits.take(i - first));
            assert(more.last() == c);
            lemma_digits_grow(digits, i - first + 1);
        }
        let digit = (c as u32 - '0' as u32) as usize;
        if value > usize::MAX / 10 {
            return None;
        }
        let tens = value * 10;
        if digit > usize::MAX - tens {
            return None;
        }
        value = tens + digit;
        i = i + 1;
    }
    assert(digits.take(n - first) =~= digits);
    Some(value)
}

} // verus!
