//! Searching the lines of a text, and finding the words of a text.

use vstd::prelude::*;
use vstd::string::StrSliceExecFns;
use vstd::utf8::encode_utf8;
use crate::text::{char_is_whitespace, has_infix, is_whitespace, split_on, str_contains};

verus! {

/// A line without the carriage return that may end it.
pub open spec fn strip_cr(l: Seq<char>) -> Seq<char> {
    if l.len() > 0 && l.last() == '\r' {
        l.drop_last()
    } else {
        l
    }
}

/// The lines of `s`, as `str::lines` gives them: split at `\n`, a `\r`
/// before the `\n` removed, and no last empty line after a final `\n`.
pub open spec fn lines_of(s: Seq<char>) -> Seq<Seq<char>> {
    let parts = split_on(s, '\n');
    let done = parts.drop_last().map_values(|l: Seq<char>| strip_cr(l));
    if parts.last().len() == 0 {
        done
    } else {
        done.push(parts.last())
    }
}

/// The first `n` of `lines` that hold `query`, each with its number.
pub open spec fn hits(query: Seq<char>, lines: Seq<Seq<char>>, n: nat) -> Seq<(usize, Seq<char>)>
    decreases n,
{
    if n == 0 {
        Seq::empty()
    } else {
        let h = hits(query, lines, (n - 1) as nat);
        if has_infix(encode_utf8(lines[n - 1]), encode_utf8(query)) {
            h.push(((n - 1) as usize, lines[n - 1]))
        } else {
            h
        }
    }
}

/// The numbered lines of `contents` that hold `query`.
pub open spec fn search_hits(query: Seq<char>, contents: Seq<char>) -> Seq<(usize, Seq<char>)> {
    hits(query, lines_of(contents), lines_of(contents).len())
}

/// The pairs of a number and a text, as values.
pub open spec fn pairs_view(v: Seq<(usize, &str)>) -> Seq<(usize, Seq<char>)> {
    v.map_values(|p: (usize, &str)| (p.0, p.1@))
}

pub proof fn lemma_hits_prefix(query: Seq<char>, a: Seq<Seq<char>>, b: Seq<Seq<char>>, n: nat)
    requires
        n <= a.len(),
        n <= b.len(),
        forall|i: int| 0 <= i < n ==> a[i] == b[i],
    ensures
        hits(query, a, n) == hits(query, b, n),
    decreases n,
{
    if n > 0 {
        lemma_hits_prefix(query, a, b, (n - 1) as nat);
    }
}

/// The lines of `contents` that hold `query`, each with its number (from 0).
pub fn search7<'a>(query: &str, contents: &'a str) -> (res: Vec<(usize, &'a str)>)
    ensures
        pairs_view(res@) == search_hits(query@, contents@),
{
    let ghost s = contents@;
    let n = contents.unicode_len();
    let mut out: Vec<(usize, &'a str)> = Vec::new();
    let mut start: usize = 0;
    let mut idx: usize = 0;
    let mut i: usize = 0;
    proof {
        assert(s.take(0) =~= Seq::<char>::empty());
        assert(s.subrange(0, 0) =~= Seq::<char>::empty());
    }
    while i < n
        invariant
            n == s.len(),
            s == contents@,
            start <= i <= n,
            idx <= i,
            split_on(s.take(i as int), '\n').len() == idx + 1,
            split_on(s.take(i as int), '\n').last() == s.subrange(start as int, i as int),
            pairs_view(out@) == hits(
                query@,
                split_on(s.take(i as int), '\n').drop_last().map_values(|l: Seq<char>| strip_cr(l)),
                idx as nat,
            ),
        decreases n - i,
    {
        let ghost parts = split_on(s.take(i as int), '\n');
        let ghost done = parts.drop_last().map_values(|l: Seq<char>| strip_cr(l));
        let ghost next = split_on(s.take(i + 1), '\n');
        let c = contents.get_char(i);
        assert(s.take(i + 1).drop_last() =~= s.take(i as int));
        assert(s.take(i + 1).last() == c);
        if c == '\n' {
            assert(next == parts.push(Seq::empty()));
            let end = if i > start && contents.get_char(i - 1) == '\r' {
                i - 1
            } else {
                i
            };
            let line = contents.substring_char(start, end);
            assert(line@ =~= strip_cr(s.subrange(start as int, i as int)));
            let ghost done2 = next.drop_last().map_values(|l: Seq<char>| strip_cr(l));
            assert(next.drop_last() =~= parts);
            assert(done2 =~= done.push(line@));
            proof { lemma_hits_prefix(query@, done, done2, idx as nat); }
            if str_contains(line, query) {
                let ghost before = out@;
                out.push((idx, line));
                assert(pairs_view(out@) =~= pairs_view(before).push((idx, line@)));
            }
            idx += 1;
            start = i + 1;
            assert(s.subrange(start as int, (i + 1) as int) =~= Seq::<char>::empty());
        } else {
            assert(next == parts.update(parts.len() - 1, parts.last().push(c)));
            assert(s.subrange(start as int, (i + 1) as int) =~= s.subrange(start as int, i as int).push(c));
            assert(next.drop_last() =~= parts.drop_last());
        }
        i += 1;
    }
    assert(s.take(n as int) =~= s);
    let ghost parts = split_on(s, '\n');
    let ghost done = parts.drop_last().map_values(|l: Seq<char>| strip_cr(l));
    if start < n {
        let line = contents.substring_char(start, n);
        let ghost all = done.push(parts.last());
        assert(all == lines_of(s));
        proof { lemma_hits_prefix(query@, done, all, idx as nat); }
        if str_contains(line, query) {
            let ghost before = out@;
            out.push((idx, line));
            assert(pairs_view(out@) =~= pairs_view(before).push((idx, line@)));
        }
    } else {
        assert(parts.last().len() == 0);
        assert(done.len() == idx);
    }
    out
}

/// The spans (start, end) of the words among the first `n` characters of
/// `s`: the longest runs of characters that are not whitespace.
pub open spec fn word_spans(s: Seq<char>, n: nat) -> Seq<(int, int)>
    decreases n,
{
    if n == 0 {
        Seq::empty()
    } else {
        let w = word_spans(s, (n - 1) as nat);
        if is_whitespace(s[n - 1]) {
            w
        } else if n >= 2 && !is_whitespace(s[n - 2]) {
            w.update(w.len() - 1, (w.last().0, n as int))
        } else {
            w.push(((n - 1) as int, n as int))
        }
    }
}

/// The words of `s`, as `str::split_whitespace` gives them, each with the
/// byte offset at which it starts in `s`.
pub open spec fn words_with_offsets(s: Seq<char>) -> Seq<(usize, Seq<char>)> {
    word_spans(s, s.len()).map_values(
        |w: (int, int)| (encode_utf8(s.take(w.0)).len() as usize, s.subrange(w.0, w.1)),
    )
}

/// The words of `s` with the byte offset at which each starts.
pub fn split_whitespace_indices(s: &str) -> (res: Vec<(usize, &str)>)
    ensures
        pairs_view(res@) == words_with_offsets(s@),
{
    let ghost t = s@;
    let n = s.unicode_len();
    let mut out: Vec<(usize, &str)> = Vec::new();
    let ghost mut spans: Seq<(int, int)> = Seq::empty();
    let mut in_word = false;
    let mut start: usize = 0;
    let mut i: usize = 0;
    while i < n
        invariant
            n == t.len(),
            t == s@,
            i <= n,
            start <= i,
            in_word ==> start < i && !is_whitespace(t[i - 1]),
            !in_word && i > 0 ==> is_whitespace(t[i - 1]),
            word_spans(t, i as nat) == if in_word {
                spans.push((start as int, i as int))
            } else {
                spans
            },
            pairs_view(out@) == spans.map_values(
                |w: (int, int)| (encode_utf8(t.take(w.0)).len() as usize, t.subrange(w.0, w.1)),
            ),
        decreases n - i,
    {
        let c = s.get_char(i);
        if char_is_whitespace(c) {
            if in_word {
                let head = s.substring_char(0, start);
                let off = head.as_bytes().len();
                let w = s.substring_char(start, i);
                assert(head@ == t.take(start as int));
                let ghost before = out@;
                out.push((off, w));
                proof {
                    let f = |w: (int, int)| (encode_utf8(t.take(w.0)).len() as usize, t.subrange(w.0, w.1));
                    assert(spans.push((start as int, i as int)).map_values(f) =~= spans.map_values(f).push(f((start as int, i as int))));
                    assert(pairs_view(out@) =~= pairs_view(before).push((off, w@)));
                    spans = spans.push((start as int, i as int));
                }
                in_word = false;
            }
        } else {
            if !in_word {
                start = i;
                in_word = true;
            }
        }
        i += 1;
    }
    if in_word {
        let head = s.substring_char(0, start);
        let off = head.as_bytes().len();
        let w = s.substring_char(start, n);
        assert(head@ == t.take(start as int));
        let ghost before = out@;
        out.push((off, w));
        proof {
            let f = |w: (int, int)| (encode_utf8(t.take(w.0)).len() as usize, t.subrange(w.0, w.1));
            assert(spans.push((start as int, n as int)).map_values(f) =~= spans.map_values(f).push(f((start as int, n as int))));
            assert(pairs_view(out@) =~= pairs_view(before).push((off, w@)));
        }
    }
    out
}

} // verus!
