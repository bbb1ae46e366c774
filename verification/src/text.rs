//! Text primitives: substring search, Unicode whitespace, decimal numbers.

use vstd::prelude::*;

verus! {

/// `p` occurs in `s` starting at position `i`.
pub open spec fn occurs_at<A>(s: Seq<A>, p: Seq<A>, i: int) -> bool {
    0 <= i && i + p.len() <= s.len() && s.subrange(i, i + p.len()) == p
}

/// `p` occurs somewhere in `s` as a contiguous part (the empty `p` always does).
pub open spec fn has_infix<A>(s: Seq<A>, p: Seq<A>) -> bool {
    exists|i: int| #[trigger] occurs_at(s, p, i)
}

fn bytes_occur_at(s: &[u8], p: &[u8], i: usize) -> (r: bool)
    requires
        i + p@.len() <= s@.len(),
    ensures
        r == occurs_at(s@, p@, i as int),
{
    let n = s.len();
    let mut k: usize = 0;
    while k < p.len()
        invariant
            n == s@.len(),
            k <= p@.len(),
            i + p@.len() <= s@.len(),
            forall|m: int| 0 <= m < k ==> s@[i + m] == p@[m],
        decreases p@.len() - k,
    {
        if s[i + k] != p[k] {
            assert(s@.subrange(i as int, i + p@.len())[k as int] != p@[k as int]);
            return false;
        }
        k += 1;
    }
    assert(s@.subrange(i as int, i + p@.len()) =~= p@);
    true
}

/// Whether the byte string `p` occurs in the byte string `s`.
pub fn bytes_contain(s: &[u8], p: &[u8]) -> (r: bool)
    ensures
        r == has_infix(s@, p@),
{
    if p.len() > s.len() {
        return false;
    }
    let last = s.len() - p.len();
    let mut i: usize = 0;
    loop
        invariant
            i <= last,
            last == s@.len() - p@.len(),
            forall|m: int| 0 <= m < i ==> !occurs_at(s@, p@, m),
        decreases last - i,
    {
        if bytes_occur_at(s, p, i) {
            return true;
        }
        if i == last {
            assert forall|m: int| !occurs_at(s@, p@, m) by {}
            return false;
        }
        i += 1;
    }
}

/// Whether `p` occurs in `s`, as `str::contains` with a string pattern
/// compares them: on their UTF-8 bytes.
pub fn str_contains(s: &str, p: &str) -> (r: bool)
    ensures
        r == has_infix(vstd::utf8::encode_utf8(s@), vstd::utf8::encode_utf8(p@)),
{
    bytes_contain(s.as_bytes(), p.as_bytes())
}

/// The character of the decimal digit `d`.
pub open spec fn digit_char(d: nat) -> char {
    (48 + d) as char
}

/// The decimal notation of `n`, without sign or leading zeros.
pub open spec fn decimal(n: nat) -> Seq<char>
    decreases n,
{
    if n < 10 {
        seq![digit_char(n)]
    } else {
        decimal(n / 10).push(digit_char(n % 10))
    }
}

/// Appends the character `c` to `s` by std's `String::push`, which the
/// documentation describes as appending the character to the end of the
/// string: the text grows by `c` at its end and is otherwise unchanged.
#[verifier::external_body]
pub(crate) fn push_char(s: &mut String, c: char)
    ensures
        final(s)@ == old(s)@.push(c),
{
    s.push(c);
}

/// Appends the decimal notation of `n` to `s`.
pub fn push_decimal(s: &mut String, n: usize)
    ensures
        final(s)@ == old(s)@ + decimal(n as nat),
    decreases n,
{
    if n >= 10 {
        push_decimal(s, n / 10);
    }
    let d: u8 = (n % 10) as u8;
    let c = (48u8 + d) as char;
    push_char(s, c);
    assert(old(s)@ + decimal(n as nat) =~= final(s)@);
}

/// Unicode `White_Space`, the property that `char::is_whitespace` tests.
pub open spec fn is_whitespace(c: char) -> bool {
    let u = c as u32;
    ||| 9 <= u <= 13
    ||| u == 32
    ||| u == 0x85
    ||| u == 0xA0
    ||| u == 0x1680
    ||| 0x2000 <= u <= 0x200A
    ||| u == 0x2028
    ||| u == 0x2029
    ||| u == 0x202F
    ||| u == 0x205F
    ||| u == 0x3000
}

/// Whether `c` is Unicode whitespace.
pub fn char_is_whitespace(c: char) -> (r: bool)
    ensures
        r == is_whitespace(c),
{
    let u = c as u32;
    (9 <= u && u <= 13) || u == 32 || u == 0x85 || u == 0xA0 || u == 0x1680 || (0x2000 <= u && u
        <= 0x200A) || u == 0x2028 || u == 0x2029 || u == 0x202F || u == 0x205F || u == 0x3000
}

/// `s` with its whitespace characters removed.
pub open spec fn strip_whitespace(s: Seq<char>) -> Seq<char>
    decreases s.len(),
{
    if s.len() == 0 {
        s
    } else {
        let r = strip_whitespace(s.drop_last());
        if is_whitespace(s.last()) {
            r
        } else {
            r.push(s.last())
        }
    }
}

/// The parts of `s` between the occurrences of `sep`, as `str::split` with a
/// character gives them: one more part than `s` has separators.
pub open spec fn split_on(s: Seq<char>, sep: char) -> Seq<Seq<char>>
    decreases s.len(),
{
    if s.len() == 0 {
        seq![Seq::empty()]
    } else {
        let p = split_on(s.drop_last(), sep);
        if s.last() == sep {
            p.push(Seq::empty())
        } else {
            p.update(p.len() - 1, p.last().push(s.last()))
        }
    }
}

/// There is always at least one part.
pub proof fn lemma_split_on_len(s: Seq<char>, sep: char)
    ensures
        split_on(s, sep).len() >= 1,
    decreases s.len(),
{
    if s.len() > 0 {
        lemma_split_on_len(s.drop_last(), sep);
    }
}

/// `b` is an ASCII decimal digit.
pub open spec fn is_digit(b: u8) -> bool {
    48 <= b <= 57
}

/// The number that the decimal digits `s` denote.
pub open spec fn digits_value(s: Seq<u8>) -> nat
    decreases s.len(),
{
    if s.len() == 0 {
        0
    } else {
        digits_value(s.drop_last()) * 10 + (s.last() - 48) as nat
    }
}

/// `s` without the one `+` sign that may lead it.
pub open spec fn unsigned_part(s: Seq<u8>) -> Seq<u8> {
    if s.len() > 0 && s[0] == 43 {
        s.drop_first()
    } else {
        s
    }
}

/// What `str::parse::<usize>` gives for the UTF-8 text `s`: an optional `+`
/// followed by at least one decimal digit, and nothing else, whose value fits.
pub open spec fn parse_usize(s: Seq<u8>) -> Option<usize> {
    let d = unsigned_part(s);
    if d.len() > 0 && (forall|i: int| 0 <= i < d.len() ==> is_digit(#[trigger] d[i])) && digits_value(d)
        <= usize::MAX {
        Some(digits_value(d) as usize)
    } else {
        None
    }
}

/// A digit string denotes at least as much as each of its prefixes.
pub proof fn lemma_digits_value_prefix(s: Seq<u8>, k: int)
    requires
        0 <= k <= s.len(),
        forall|i: int| 0 <= i < s.len() ==> is_digit(#[trigger] s[i]),
    ensures
        digits_value(s.take(k)) <= digits_value(s),
    decreases s.len() - k,
{
    if k < s.len() {
        lemma_digits_value_prefix(s, k + 1);
        assert(s.take(k + 1).drop_last() =~= s.take(k));
    } else {
        assert(s.take(k) =~= s);
    }
}

/// Parses the first `end` bytes of `b` as `str::parse::<usize>` does.
pub fn parse_usize_prefix(b: &[u8], end: usize) -> (r: Option<usize>)
    requires
        end <= b@.len(),
    ensures
        r == parse_usize(b@.take(end as int)),
{
    let ghost s = b@.take(end as int);
    let mut start: usize = 0;
    if end > 0 && b[0] == 43u8 {
        start = 1;
    }
    let ghost d = unsigned_part(s);
    assert(d =~= b@.subrange(start as int, end as int));
    if start == end {
        return None;
    }
    let mut acc: usize = 0;
    let mut i: usize = start;
    while i < end
        invariant
            start <= i <= end,
            end <= b@.len(),
            d =~= b@.subrange(start as int, end as int),
            d == unsigned_part(b@.take(end as int)),
            forall|k: int| 0 <= k < i - start ==> is_digit(#[trigger] d[k]),
            acc as nat == digits_value(d.take(i - start)),
        decreases end - i,
    {
        let c = b[i];
        assert(d[i - start] == b@[i as int]);
        if c < 48u8 || c > 57u8 {
            assert(!is_digit(d[i - start]));
            return None;
        }
        assert(d.take(i - start + 1).drop_last() =~= d.take(i - start));
        assert(d.take(i - start + 1).last() == c);
        let digit: usize = (c - 48u8) as usize;
        if acc > (usize::MAX - digit) / 10 {
            proof {
                assert(acc * 10 + digit > usize::MAX);
                assert(digits_value(d.take(i - start + 1)) == acc * 10 + digit);
                if forall|k: int| 0 <= k < d.len() ==> is_digit(#[trigger] d[k]) {
                    lemma_digits_value_prefix(d, i - start + 1);
                }
            }
            return None;
        }
        acc = acc * 10 + digit;
        i += 1;
    }
    assert(d.take(end - start) =~= d);
    Some(acc)
}

} // verus!
