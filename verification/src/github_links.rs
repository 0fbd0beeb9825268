//! What is read off the texts that GitHub hands out: the repository that a
//! link names, and the number of pages that a `Link` header announces.
//!
//! Texts are searched byte by byte over their UTF-8 encoding. The patterns
//! searched for are ASCII, so a match never starts or ends inside a
//! character.

use vstd::prelude::*;
use vstd::string::StringSliceAdditionalSpecFns;

verus! {

/// The byte of the sign `+`.
pub const PLUS: u8 = 43;

/// The byte of the digit `0`.
pub const DIGIT_ZERO: u8 = 48;

/// The byte of the digit `9`.
pub const DIGIT_NINE: u8 = 57;

/// The byte of the slash.
pub const SLASH: u8 = 47;

/// The byte of `>`, which ends the address in a `Link` header.
pub const ADDRESS_END: u8 = 62;

/// `pat` stands in `hay` at `i`.
pub open spec fn matches_at(hay: Seq<u8>, pat: Seq<u8>, i: int) -> bool {
    0 <= i && i + pat.len() <= hay.len() && hay.subrange(i, i + pat.len()) == pat
}

/// The first place from `i` on, and before `end`, at which `pat` stands in
/// the first `end` bytes of `hay`; `end` where there is none.
pub open spec fn first_match(hay: Seq<u8>, pat: Seq<u8>, i: int, end: int) -> int
    decreases end - i,
{
    if i < 0 || i >= end || i + pat.len() > end || end > hay.len() {
        end
    } else if matches_at(hay, pat, i) {
        i
    } else {
        first_match(hay, pat, i + 1, end)
    }
}

/// The last place before `i` at which `pat` stands in `hay`; -1 where there is none.
pub open spec fn last_match(hay: Seq<u8>, pat: Seq<u8>, i: int) -> int
    decreases i,
{
    if i <= 0 {
        -1
    } else if matches_at(hay, pat, i - 1) {
        i - 1
    } else {
        last_match(hay, pat, i - 1)
    }
}

/// The value of a text of decimal digits, or nothing where a byte is no digit.
pub open spec fn digits_value(s: Seq<u8>) -> Option<nat>
    decreases s.len(),
{
    if s.len() == 0 {
        Some(0)
    } else {
        match digits_value(s.drop_last()) {
            Some(v) => if DIGIT_ZERO <= s.last() <= DIGIT_NINE {
                Some(10 * v + (s.last() - DIGIT_ZERO) as nat)
            } else {
                None
            },
            None => None,
        }
    }
}

/// The number that a text of digits stands for: at least one digit, with a
/// value in the range of `u32`.
pub open spec fn digits_count(body: Seq<u8>) -> Option<u32> {
    if body.len() == 0 {
        None
    } else {
        match digits_value(body) {
            Some(v) => if v <= u32::MAX {
                Some(v as u32)
            } else {
                None
            },
            None => None,
        }
    }
}

/// The number that a text stands for: decimal digits, at least one, after
/// an optional `+`, with a value in the range of `u32`.
pub open spec fn parsed_count(s: Seq<u8>) -> Option<u32> {
    if s.len() > 0 && s[0] == PLUS {
        digits_count(s.subrange(1, s.len() as int))
    } else {
        digits_count(s)
    }
}

/// The number of pages that a `Link` header announces: the number between
/// the last `page=` and the first `>` after it; 1 where there is no
/// header, no `page=`, no `>` after it, or no number between them.
pub open spec fn page_count(link: Option<Seq<u8>>, marker: Seq<u8>) -> u32 {
    match link {
        None => 1,
        Some(s) => {
            let at = last_match(s, marker, s.len() as int);
            let start = at + marker.len();
            let end = first_match(s, seq![ADDRESS_END], start, s.len() as int);
            if at < 0 || end >= s.len() {
                1
            } else {
                match parsed_count(s.subrange(start, end)) {
                    Some(n) => n,
                    None => 1,
                }
            }
        },
    }
}

/// The length of `s` without the slashes at its end.
pub open spec fn trimmed_len(s: Seq<u8>) -> int
    decreases s.len(),
{
    if s.len() > 0 && s.last() == SLASH {
        trimmed_len(s.drop_last())
    } else {
        s.len() as int
    }
}

/// Where the name of the repository stands in an address: after the first
/// `host` and up to the next one, or up to the end without its slashes;
/// nothing where the address does not hold `host`.
pub open spec fn repo_span(url: Seq<u8>, host: Seq<u8>) -> Option<(int, int)> {
    let end = trimmed_len(url);
    let at = first_match(url, host, 0, end);
    if at >= end {
        None
    } else {
        Some((at + host.len(), first_match(url, host, at + host.len(), end)))
    }
}

/// Where `first_match` points, the pattern stands, and nowhere before from `i` on.
pub proof fn lemma_first_match(hay: Seq<u8>, pat: Seq<u8>, i: int, end: int)
    requires
        0 <= i,
        end <= hay.len(),
    ensures
        first_match(hay, pat, i, end) <= end,
        first_match(hay, pat, i, end) < end ==> i <= first_match(hay, pat, i, end)
            && first_match(hay, pat, i, end) + pat.len() <= end && matches_at(
            hay,
            pat,
            first_match(hay, pat, i, end),
        ),
        forall|k: int|
            i <= k < first_match(hay, pat, i, end) && k + pat.len() <= end ==> !matches_at(
                hay,
                pat,
                k,
            ),
    decreases end - i,
{
    if i < end && i + pat.len() <= end && !matches_at(hay, pat, i) {
        lemma_first_match(hay, pat, i + 1, end);
    }
}

/// Tells whether `pat` stands in `hay` at `i`.
fn stands_at(hay: &[u8], pat: &[u8], i: usize) -> (found: bool)
    ensures
        found == matches_at(hay@, pat@, i as int),
{
    if pat.len() > hay.len() || i > hay.len() - pat.len() {
        return false;
    }
    let mut k: usize = 0;
    while k < pat.len()
        invariant
            k <= pat.len(),
            i + pat.len() <= hay.len(),
            forall|m: int| 0 <= m < k ==> hay[i + m] == pat[m],
        decreases pat.len() - k,
    {
        if hay[i + k] != pat[k] {
            assert(hay@.subrange(i as int, i + pat.len())[k as int] != pat@[k as int]);
            return false;
        }
        k += 1;
    }
    assert(hay@.subrange(i as int, i + pat.len()) =~= pat@);
    true
}

/// The first place from `from` on, and before `end`, at which `pat` stands
/// in the first `end` bytes of `hay`; `end` where there is none.
fn find_first(hay: &[u8], pat: &[u8], from: usize, end: usize) -> (at: usize)
    requires
        end <= hay.len(),
    ensures
        at == first_match(hay@, pat@, from as int, end as int),
        at <= end,
{
    proof {
        lemma_first_match(hay@, pat@, from as int, end as int);
    }
    let mut i: usize = from;
    while i < end && pat.len() <= end - i
        invariant
            from <= i,
            end <= hay.len(),
            first_match(hay@, pat@, from as int, end as int) == first_match(
                hay@,
                pat@,
                i as int,
                end as int,
            ),
        decreases end - i,
    {
        if stands_at(hay, pat, i) {
            return i;
        }
        i += 1;
    }
    end
}

/// The last place at which `pat` stands in `hay`, if there is one.
fn find_last(hay: &[u8], pat: &[u8]) -> (at: Option<usize>)
    ensures
        match at {
            Some(i) => i == last_match(hay@, pat@, hay.len() as int),
            None => last_match(hay@, pat@, hay.len() as int) == -1,
        },
{
    let mut i: usize = hay.len();
    while i > 0
        invariant
            i <= hay.len(),
            last_match(hay@, pat@, hay.len() as int) == last_match(hay@, pat@, i as int),
        decreases i,
    {
        if stands_at(hay, pat, i - 1) {
            return Some(i - 1);
        }
        i -= 1;
    }
    None
}

/// A text of digits that goes on after its value left the range of `u32`
/// stands for no number of that range.
proof fn lemma_digits_grow(s: Seq<u8>, n: int)
    requires
        0 <= n <= s.len(),
        match digits_value(s.take(n)) {
            Some(v) => v > u32::MAX,
            None => true,
        },
    ensures
        match digits_value(s) {
            Some(v) => v > u32::MAX,
            None => true,
        },
    decreases s.len() - n,
{
    if n < s.len() {
        assert(s.take(n + 1).drop_last() =~= s.take(n));
        lemma_digits_grow(s, n + 1);
    } else {
        assert(s.take(n) =~= s);
    }
}

/// The number that the bytes from `start` up to `end` stand for.
fn parse_count(text: &[u8], start: usize, end: usize) -> (count: Option<u32>)
    requires
        start <= end <= text.len(),
    ensures
        count == parsed_count(text@.subrange(start as int, end as int)),
{
    let ghost whole = text@.subrange(start as int, end as int);
    let mut i: usize = start;
    if i < end && text[i] == PLUS {
        i += 1;
    }
    let first = i;
    let ghost body = text@.subrange(first as int, end as int);
    assert(body =~= if whole.len() > 0 && whole[0] == PLUS {
        whole.subrange(1, whole.len() as int)
    } else {
        whole
    });
    assert(parsed_count(whole) == digits_count(body));
    if first == end {
        return None;
    }
    let mut value: u64 = 0;
    assert(body.take(0) =~= Seq::empty());
    while i < end
        invariant
            first <= i <= end,
            first < end,
            end <= text.len(),
            body == text@.subrange(first as int, end as int),
            parsed_count(text@.subrange(start as int, end as int)) == digits_count(body),
            value <= u32::MAX,
            digits_value(body.take(i - first)) == Some(value as nat),
        decreases end - i,
    {
        let byte = text[i];
        assert(body.take(i - first + 1).drop_last() =~= body.take(i - first));
        assert(body.take(i - first + 1).last() == byte);
        if byte < DIGIT_ZERO || byte > DIGIT_NINE {
            proof {
                lemma_digits_grow(body, i - first + 1);
            }
            return None;
        }
        value = 10 * value + (byte - DIGIT_ZERO) as u64;
        if value > u32::MAX as u64 {
            proof {
                lemma_digits_grow(body, i - first + 1);
            }
            return None;
        }
        i += 1;
    }
    assert(body.take(i - first) =~= body);
    Some(value as u32)
}

/// The number of pages that a `Link` header announces: the number between
/// the last `page=` of the header and the first `>` after it; 1 where
/// there is no header or no such number.
pub fn extract_count_from_link(link: Option<&str>) -> (count: u32)
    ensures
        count == page_count(
            match link {
                Some(s) => Some(s.spec_bytes()),
                None => None,
            },
            "page=".spec_bytes(),
        ),
{
    match link {
        None => 1,
        Some(s) => {
            let text = s.as_bytes();
            let marker = "page=".as_bytes();
            match find_last(text, marker) {
                None => 1,
                Some(at) => {
                    proof {
                        lemma_last_match(text@, marker@, text.len() as int);
                    }
                    let start = at + marker.len();
                    let stop = [ADDRESS_END];
                    assert(stop@ =~= seq![ADDRESS_END]);
                    let end = find_first(text, stop.as_slice(), start, text.len());
                    if end >= text.len() {
                        1
                    } else {
                        proof {
                            lemma_first_match(text@, stop@, start as int, text.len() as int);
                        }
                        match parse_count(text, start, end) {
                            Some(n) => n,
                            None => 1,
                        }
                    }
                },
            }
        },
    }
}

/// Where `last_match` points, the pattern stands, and it points below `i`.
pub proof fn lemma_last_match(hay: Seq<u8>, pat: Seq<u8>, i: int)
    requires
        0 <= i <= hay.len(),
    ensures
        -1 <= last_match(hay, pat, i) < i || (i == 0 && last_match(hay, pat, i) == -1),
        last_match(hay, pat, i) >= 0 ==> matches_at(hay, pat, last_match(hay, pat, i)),
    decreases i,
{
    if i > 0 && !matches_at(hay, pat, i - 1) {
        lemma_last_match(hay, pat, i - 1);
    }
}

/// Tells whether an address names GitHub.
pub fn mentions_github(url: &str) -> (found: bool)
    ensures
        found == (first_match(
            url.spec_bytes(),
            "github.com".spec_bytes(),
            0,
            url.spec_bytes().len() as int,
        ) < url.spec_bytes().len()),
{
    let text = url.as_bytes();
    find_first(text, "github.com".as_bytes(), 0, text.len()) < text.len()
}

/// Where the name of the repository stands in an address of GitHub, in
/// bytes: after the first `github.com/` and up to the next one, or up to
/// the end without its slashes. Nothing where the address does not hold
/// `github.com/`.
pub fn github_repo_span(url: &str) -> (span: Option<(usize, usize)>)
    ensures
        match (span, repo_span(url.spec_bytes(), "github.com/".spec_bytes())) {
            (Some(found), Some(expected)) => found.0 == expected.0 && found.1 == expected.1
                && found.0 <= found.1 <= url.spec_bytes().len(),
            (None, None) => true,
            _ => false,
        },
{
    let text = url.as_bytes();
    let host = "github.com/".as_bytes();
    let mut end: usize = text.len();
    assert(text@.take(text.len() as int) =~= text@);
    while end > 0 && text[end - 1] == SLASH
        invariant
            end <= text.len(),
            trimmed_len(text@) == trimmed_len(text@.take(end as int)),
        decreases end,
    {
        assert(text@.take(end as int).drop_last() =~= text@.take(end - 1));
        end -= 1;
    }
    assert(trimmed_len(text@.take(end as int)) == end);
    proof {
        lemma_first_match(text@, host@, 0, end as int);
    }
    let at = find_first(text, host, 0, end);
    if at >= end {
        None
    } else {
        let start = at + host.len();
        proof {
            lemma_first_match(text@, host@, start as int, end as int);
        }
        Some((start, find_first(text, host, start, end)))
    }
}

} // verus!
