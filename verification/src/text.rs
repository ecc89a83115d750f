//! Text: comparison, search and the decimal form of whole numbers.
use vstd::prelude::*;
use vstd::string::StringExecFns;
use vstd::utf8::encode_utf8;

verus! {

/// `std`'s `String::push` adds one character at the end.
pub assume_specification[ String::push ](s: &mut String, c: char)
    ensures
        final(s)@ == old(s)@.push(c),
;

/// The text in lower case, as `std` has it.
pub uninterp spec fn lowered(text: Seq<char>) -> Seq<char>;

/// `std`'s `str::to_lowercase` gives a text in lower case, which depends on the text alone.
#[verifier::external_body]
pub(crate) fn to_lower(text: &str) -> (r: String)
    ensures
        r@ == lowered(text@),
{
    text.to_lowercase()
}

/// `needle` stands in `hay` at position `i`.
pub open spec fn occurs_at(hay: Seq<char>, needle: Seq<char>, i: int) -> bool {
    0 <= i && i + needle.len() <= hay.len() && hay.subrange(i, i + needle.len()) == needle
}

/// `needle` is a part of `hay`.
pub open spec fn occurs(hay: Seq<char>, needle: Seq<char>) -> bool {
    exists|i: int| occurs_at(hay, needle, i)
}

/// The digit of a number below ten.
pub open spec fn digit(n: nat) -> char {
    ((n % 10) + 48) as char
}

/// A whole number in decimal, without leading zeros.
pub open spec fn decimal(n: nat) -> Seq<char>
    decreases n,
{
    if n < 10 {
        seq![digit(n)]
    } else {
        decimal(n / 10).push(digit(n % 10))
    }
}

/// The number of bytes that a text takes.
pub open spec fn byte_length(s: Seq<char>) -> usize {
    encode_utf8(s).len() as usize
}

/// The characters of `s`.
pub fn chars_of(s: &str) -> (v: Vec<char>)
    ensures
        v@ == s@,
{
    let mut v: Vec<char> = Vec::new();
    for c in it: s.chars()
        invariant
            v@ == it.seq().take(it.index() as int),
    {
        v.push(c);
    }
    v
}

/// Whether the two texts are the same.
pub fn same(a: &str, b: &str) -> (r: bool)
    ensures
        r == (a@ == b@),
{
    a.to_owned() == b.to_owned()
}

/// Whether `needle` stands at the start of `hay`.
pub fn starts_with(hay: &str, needle: &str) -> (r: bool)
    ensures
        r == occurs_at(hay@, needle@, 0),
{
    let h: Vec<char> = chars_of(hay);
    let n: Vec<char> = chars_of(needle);
    matches_at(&h, &n, 0)
}

fn matches_at(hay: &Vec<char>, needle: &Vec<char>, at: usize) -> (r: bool)
    requires
        at <= hay.len(),
    ensures
        r == occurs_at(hay@, needle@, at as int),
{
    if needle.len() > hay.len() - at {
        return false;
    }
    let mut j: usize = 0;
    while j < needle.len()
        invariant
            j <= needle.len(),
            at + needle.len() <= hay.len(),
            forall|k: int| 0 <= k < j ==> hay@[at + k] == #[trigger] needle@[k],
        decreases needle.len() - j,
    {
        if hay[at + j] != needle[j] {
            proof {
                assert(hay@.subrange(at as int, at + needle@.len())[j as int] != needle@[j as int]);
            }
            return false;
        }
        j = j + 1;
    }
    assert(hay@.subrange(at as int, at + needle@.len()) =~= needle@);
    true
}

/// Whether `needle` is a part of `hay`.
pub fn contains(hay: &str, needle: &str) -> (r: bool)
    ensures
        r == occurs(hay@, needle@),
{
    let h: Vec<char> = chars_of(hay);
    let n: Vec<char> = chars_of(needle);
    let mut i: usize = 0;
    while i < h.len()
        invariant
            i <= h.len(),
            h@ == hay@,
            n@ == needle@,
            forall|k: int| 0 <= k < i ==> !occurs_at(hay@, needle@, k),
        decreases h.len() - i,
    {
        if matches_at(&h, &n, i) {
            return true;
        }
        i = i + 1;
    }
    let last: bool = matches_at(&h, &n, i);
    proof {
        if !last {
            assert(forall|k: int| !occurs_at(hay@, needle@, k));
        }
    }
    last
}

/// What follows `prefix` at the start of `s`.
pub fn without_prefix(s: &str, prefix: &str) -> (r: Option<String>)
    ensures
        r is Some == occurs_at(s@, prefix@, 0),
        r is Some ==> r->0@ == s@.skip(prefix@.len() as int),
{
    let h: Vec<char> = chars_of(s);
    let n: Vec<char> = chars_of(prefix);
    if !matches_at(&h, &n, 0) {
        return None;
    }
    let mut t: String = String::new();
    let mut i: usize = n.len();
    while i < h.len()
        invariant
            n.len() <= i <= h.len(),
            h@ == s@,
            n@ == prefix@,
            t@ == s@.subrange(n.len() as int, i as int),
        decreases h.len() - i,
    {
        t.push(h[i]);
        i = i + 1;
        assert(t@ =~= s@.subrange(n.len() as int, i as int));
    }
    assert(t@ =~= s@.skip(prefix@.len() as int));
    Some(t)
}

/// The decimal form of `n`.
pub fn to_decimal(n: u64) -> (s: String)
    ensures
        s@ == decimal(n as nat),
    decreases n,
{
    let d: u8 = (n % 10) as u8 + 48;
    if n < 10 {
        let mut s: String = String::new();
        s.push(d as char);
        assert(s@ =~= decimal(n as nat));
        s
    } else {
        let mut s: String = to_decimal(n / 10);
        s.push(d as char);
        s
    }
}

/// The two texts, one after the other.
pub fn join(a: &str, b: &str) -> (s: String)
    ensures
        s@ == a@ + b@,
{
    let mut s: String = a.to_owned();
    s.append(b);
    s
}

/// The value of a decimal digit.
pub open spec fn is_digit(c: char) -> bool {
    '0' <= c <= '9'
}

/// The number that digits stand for.
pub open spec fn number(digits: Seq<char>) -> nat
    decreases digits.len(),
{
    if digits.len() == 0 {
        0
    } else {
        number(digits.drop_last()) * 10 + (digits.last() as nat - '0' as nat) as nat
    }
}

/// The digits of a number that may be written with a plus sign.
pub open spec fn unsigned_part(s: Seq<char>) -> Seq<char> {
    if s.len() > 0 && s[0] == '+' {
        s.skip(1)
    } else {
        s
    }
}

/// The number that a text holds: digits, with a plus sign before them or without, and no
/// more than a `u64` can hold.
pub open spec fn parsed(s: Seq<char>) -> Option<u64> {
    let digits = unsigned_part(s);
    if digits.len() > 0 && (forall|i: int| 0 <= i < digits.len() ==> is_digit(#[trigger] digits[i]))
        && number(digits) <= u64::MAX {
        Some(number(digits) as u64)
    } else {
        None
    }
}

proof fn lemma_number_grows(digits: Seq<char>, i: int)
    requires
        0 <= i <= digits.len(),
    ensures
        number(digits.take(i)) <= number(digits),
    decreases digits.len(),
{
    if i == digits.len() {
        assert(digits.take(i) =~= digits);
    } else {
        lemma_number_grows(digits.drop_last(), i);
        assert(digits.drop_last().take(i) =~= digits.take(i));
    }
}

/// The number that a text holds.
pub fn parse_u64(s: &str) -> (r: Option<u64>)
    ensures
        r == parsed(s@),
{
    let chars: Vec<char> = chars_of(s);
    let start: usize = if chars.len() > 0 && chars[0] == '+' {
        1
    } else {
        0
    };
    let ghost digits = unsigned_part(s@);
    assert(digits =~= chars@.skip(start as int));
    if start == chars.len() {
        return None;
    }
    let mut n: u64 = 0;
    let mut i: usize = start;
    while i < chars.len()
        invariant
            start <= i <= chars@.len(),
            start <= 1,
            digits == unsigned_part(s@),
            digits == chars@.skip(start as int),
            forall|k: int| 0 <= k < i - start ==> is_digit(#[trigger] digits[k]),
            n == number(digits.take(i - start)),
        decreases chars@.len() - i,
    {
        let c: char = chars[i];
        let ghost k = i - start;
        assert(digits[k] == c);
        if !('0' <= c && c <= '9') {
            assert(!is_digit(digits[k]));
            return None;
        }
        let d: u64 = (c as u32 - '0' as u32) as u64;
        proof {
            assert(digits.take(k + 1).drop_last() =~= digits.take(k));
            assert(number(digits.take(k + 1)) == n * 10 + d);
            lemma_number_grows(digits, k + 1);
        }
        if n > (u64::MAX - d) / 10 {
            return None;
        }
        n = n * 10 + d;
        i = i + 1;
    }
    assert(digits.take(i - start) =~= digits);
    Some(n)
}

/// A text stands in every text that is made of something before it, of itself and of something
/// after it; and where it stands, the text around it is made so.
pub proof fn parts_stand_anywhere(before: Seq<char>, part: Seq<char>, after: Seq<char>)
    ensures
        occurs(before + part + after, part),
        occurs_at(before + part + after, part, before.len() as int),
        before.len() == 0 ==> occurs_at(part + after, part, 0),
{
    let whole = before + part + after;
    let at = before.len() as int;
    assert(whole.subrange(at, at + part.len()) =~= part);
    assert(occurs_at(whole, part, at));
    if before.len() == 0 {
        assert((part + after).subrange(0, part.len() as int) =~= part);
    }
}

/// A text that stands nowhere: however the whole is cut in three, the middle is another text.
pub open spec fn stands_nowhere(whole: Seq<char>, part: Seq<char>) -> bool {
    forall|before: Seq<char>, after: Seq<char>| whole != #[trigger] (before + part + after)
}

/// A text that stands nowhere in another is no part of it.
pub proof fn what_stands_nowhere_is_no_part(whole: Seq<char>, part: Seq<char>)
    ensures
        occurs(whole, part) <==> !stands_nowhere(whole, part),
{
    if occurs(whole, part) {
        let i = choose|i: int| occurs_at(whole, part, i);
        assert(occurs_at(whole, part, i));
        let before = whole.take(i);
        let after = whole.skip(i + part.len());
        assert(whole =~= before + part + after);
    }
    if !stands_nowhere(whole, part) {
        let (before, after) = choose|before: Seq<char>, after: Seq<char>|
            whole == #[trigger] (before + part + after);
        parts_stand_anywhere(before, part, after);
    }
}

/// A whole number, written in decimal and read again, is the same number; with a plus sign
/// before it too. Different numbers are written differently, and all that is written is
/// digits, without a zero before them.
pub proof fn decimals_are_read_back(n: u64)
    ensures
        parsed(decimal(n as nat)) == Some(n),
        parsed(seq!['+'] + decimal(n as nat)) == Some(n),
        decimal(n as nat).len() >= 1,
        decimal(n as nat)[0] == '0' ==> n == 0,
{
    let d = decimal(n as nat);
    lemma_decimal(n as nat);
    assert(is_digit(d[0]));
    assert(unsigned_part(d) == d);
    assert((seq!['+'] + d).skip(1) =~= d);
}

proof fn lemma_decimal(n: nat)
    ensures
        number(decimal(n)) == n,
        decimal(n).len() >= 1,
        forall|i: int| 0 <= i < decimal(n).len() ==> is_digit(#[trigger] decimal(n)[i]),
        n > 0 ==> decimal(n)[0] != '0',
    decreases n,
{
    if n < 10 {
        assert(seq![digit(n)].drop_last() =~= Seq::<char>::empty());
        assert(number(Seq::<char>::empty()) == 0);
    } else {
        lemma_decimal(n / 10);
        assert(decimal(n).drop_last() =~= decimal(n / 10));
    }
}

/// A text with anything in it but digits, past a plus sign at its start, is no number; nor is
/// a text without digits.
pub proof fn other_texts_are_no_numbers(s: Seq<char>, i: int)
    requires
        s.len() == 0 || s == seq!['+'] || (1 <= i < s.len() && !('0' <= s[i] <= '9')) || (s.len()
            > 0 && s[0] != '+' && !('0' <= s[0] <= '9')),
    ensures
        parsed(s) is None,
{
    let digits = unsigned_part(s);
    if s.len() > 0 && s[0] == '+' {
        if s.len() > 1 {
            assert(digits[i - 1] == s[i]);
            assert(!is_digit(digits[i - 1]));
        }
    } else if s.len() > 0 {
        if !('0' <= s[0] <= '9') {
            assert(!is_digit(digits[0]));
        } else {
            assert(!is_digit(digits[i]));
        }
    }
}

/// A number in decimal is made of visible characters.
pub proof fn decimals_can_be_shown(n: u64)
    ensures
        forall|i: int|
            0 <= i < decimal(n as nat).len() ==> '0' <= #[trigger] decimal(n as nat)[i] <= '9',
{
    lemma_decimal(n as nat);
    assert forall|i: int| 0 <= i < decimal(n as nat).len() implies '0' <= #[trigger] decimal(
        n as nat,
    )[i] <= '9' by {
        assert(is_digit(decimal(n as nat)[i]));
    }
}

/// A number that is too large to be held is not read; zeros before a number do not matter.
pub proof fn large_numbers_are_not_read(n: nat)
    ensures
        n > u64::MAX ==> parsed(decimal(n)) is None,
        n <= u64::MAX ==> parsed(seq!['0'] + decimal(n)) == Some(n as u64),
{
    lemma_decimal(n);
    let d = decimal(n);
    assert(is_digit(d[0]));
    assert(unsigned_part(d) == d);
    let padded = seq!['0'] + d;
    assert(unsigned_part(padded) == padded);
    assert forall|i: int| 0 <= i < padded.len() implies is_digit(#[trigger] padded[i]) by {
        if i > 0 {
            assert(padded[i] == d[i - 1]);
        }
    }
    lemma_zero_before(d);
}

proof fn lemma_zero_before(d: Seq<char>)
    ensures
        number(seq!['0'] + d) == number(d),
    decreases d.len(),
{
    let padded = seq!['0'] + d;
    if d.len() == 0 {
        assert(padded.drop_last() =~= Seq::<char>::empty());
        assert(number(Seq::<char>::empty()) == 0);
    } else {
        lemma_zero_before(d.drop_last());
        assert(padded.drop_last() =~= seq!['0'] + d.drop_last());
    }
}

} // verus!
