//! Splitting a text on a delimiter and joining pieces with it.
//!
//! Texts are modelled as sequences of characters. The delimiter is a text of
//! its own, matched as an exact substring, leftmost match first.

use vstd::prelude::*;

verus! {

/// The views of a sequence of strings, in order.
pub open spec fn texts(v: Seq<String>) -> Seq<Seq<char>> {
    Seq::new(v.len(), |i: int| v[i]@)
}

/// The text of a string that may be absent.
pub open spec fn optional_text(value: Option<String>) -> Option<Seq<char>> {
    match value {
        Some(s) => Some(s@),
        None => None,
    }
}

/// `d` stands in `s` at position `i`.
pub open spec fn occurs_at(s: Seq<char>, d: Seq<char>, i: int) -> bool {
    &&& 0 <= i
    &&& i + d.len() <= s.len()
    &&& s.subrange(i, i + d.len()) == d
}

/// `d` stands somewhere in `s`.
pub open spec fn contains_delimiter(s: Seq<char>, d: Seq<char>) -> bool {
    exists|i: int| occurs_at(s, d, i)
}

/// The least position at or after `from` at which a non-empty `d` stands in
/// `s`, if any.
pub open spec fn first_match_from(s: Seq<char>, d: Seq<char>, from: int) -> Option<int>
    decreases s.len() - from,
{
    if d.len() == 0 || from < 0 || from + d.len() > s.len() {
        None
    } else if occurs_at(s, d, from) {
        Some(from)
    } else {
        first_match_from(s, d, from + 1)
    }
}

/// The pieces into which the occurrences of `d` cut `s`, leftmost match
/// first. A text without any occurrence is one piece; so is any text when
/// `d` is empty.
pub open spec fn pieces(s: Seq<char>, d: Seq<char>) -> Seq<Seq<char>>
    decreases s.len(),
    via pieces_terminates
{
    match first_match_from(s, d, 0) {
        None => seq![s],
        Some(i) => seq![s.take(i)] + pieces(s.skip(i + d.len()), d),
    }
}

#[via_fn]
proof fn pieces_terminates(s: Seq<char>, d: Seq<char>) {
    lemma_first_match(s, d, 0);
}

/// What `first_match_from` finds is the least occurrence at or after `from`,
/// and it finds one whenever there is one.
pub proof fn lemma_first_match(s: Seq<char>, d: Seq<char>, from: int)
    requires
        0 <= from,
    ensures
        match first_match_from(s, d, from) {
            Some(i) => {
                &&& d.len() > 0
                &&& from <= i
                &&& occurs_at(s, d, i)
                &&& forall|j: int| from <= j < i ==> !occurs_at(s, d, j)
            },
            None => d.len() > 0 ==> forall|j: int| from <= j ==> !occurs_at(s, d, j),
        },
    decreases s.len() - from,
{
    if d.len() == 0 || from + d.len() > s.len() {
    } else if occurs_at(s, d, from) {
    } else {
        lemma_first_match(s, d, from + 1);
    }
}

/// The pieces put together again, with `d` between neighbours.
pub open spec fn joined(parts: Seq<Seq<char>>, d: Seq<char>) -> Seq<char>
    decreases parts.len(),
{
    if parts.len() == 0 {
        Seq::empty()
    } else if parts.len() == 1 {
        parts[0]
    } else {
        joined(parts.drop_last(), d) + d + parts.last()
    }
}

/// The characters of a string, one by one.
fn chars_of(s: &str) -> (out: Vec<char>)
    ensures
        out@ == s@,
{
    let mut out: Vec<char> = Vec::new();
    for c in it: s.chars()
        invariant
            it.seq() == s@,
            out@ == s@.take(it.index() as int),
    {
        out.push(c);
    }
    out
}

/// Whether `needle` stands in `hay` at position `at`.
fn occurs_here(hay: &Vec<char>, needle: &Vec<char>, at: usize) -> (found: bool)
    requires
        at + needle@.len() <= hay@.len(),
    ensures
        found == occurs_at(hay@, needle@, at as int),
{
    let n: usize = hay.len();
    let m: usize = needle.len();
    let mut k: usize = 0;
    while k < m
        invariant
            n == hay@.len(),
            m == needle@.len(),
            at + m <= n,
            k <= m,
            forall|j: int| 0 <= j < k ==> hay@[at + j] == needle@[j],
        decreases m - k,
    {
        if hay[at + k] != needle[k] {
            return false;
        }
        k = k + 1;
    }
    assert(hay@.subrange(at as int, at + m) =~= needle@);
    true
}

/// Splits `segment` on every occurrence of `delimiter`, leftmost first.
/// Neighbouring, leading and trailing delimiters give empty entries.
pub fn split_entries(segment: &str, delimiter: &str) -> (out: Vec<String>)
    requires
        delimiter@.len() > 0,
    ensures
        texts(out@) == pieces(segment@, delimiter@),
{
    let hay: Vec<char> = chars_of(segment);
    let needle: Vec<char> = chars_of(delimiter);
    let n: usize = hay.len();
    let m: usize = needle.len();
    let mut out: Vec<String> = Vec::new();
    let mut start: usize = 0;
    let mut i: usize = 0;
    proof {
        assert(segment@.skip(0) =~= segment@);
    }
    while m <= n && i <= n - m
        invariant
            hay@ == segment@,
            needle@ == delimiter@,
            n == hay@.len(),
            m == needle@.len(),
            m > 0,
            start <= i <= n,
            texts(out@) + pieces(segment@.skip(start as int), delimiter@) == pieces(
                segment@,
                delimiter@,
            ),
            forall|j: int| start <= j < i ==> !occurs_at(segment@, delimiter@, j),
        decreases n - i,
    {
        if occurs_here(&hay, &needle, i) {
            let piece: String = segment.substring_char(start, i).to_owned();
            proof {
                lemma_match_in_suffix(segment@, delimiter@, start as int, i as int);
                let rest = segment@.skip(start as int);
                assert(rest.take(i - start) =~= segment@.subrange(start as int, i as int));
                assert(rest.skip(i - start + m) =~= segment@.skip(i + m));
            }
            out.push(piece);
            i = i + m;
            start = i;
        } else {
            i = i + 1;
        }
    }
    let last: String = segment.substring_char(start, n).to_owned();
    proof {
        lemma_no_match_in_suffix(segment@, delimiter@, start as int);
    }
    out.push(last);
    out
}

/// With no occurrence of `d` in `s` from `start` up to `i`, and one at `i`,
/// the first match in the rest of `s` after `start` is the one at `i`.
proof fn lemma_match_in_suffix(s: Seq<char>, d: Seq<char>, start: int, i: int)
    requires
        d.len() > 0,
        0 <= start <= i,
        occurs_at(s, d, i),
        forall|j: int| start <= j < i ==> !occurs_at(s, d, j),
    ensures
        first_match_from(s.skip(start), d, 0) == Some(i - start),
{
    let rest = s.skip(start);
    lemma_first_match(rest, d, 0);
    assert forall|j: int| 0 <= j implies occurs_at(rest, d, j) == occurs_at(s, d, j + start) by {
        if j + d.len() <= rest.len() {
            assert(rest.subrange(j, j + d.len()) =~= s.subrange(j + start, j + start + d.len()));
        }
    }
    assert(occurs_at(rest, d, i - start));
}

/// With no occurrence of `d` in `s` at or after `start`, the rest of `s`
/// after `start` has no match.
proof fn lemma_no_match_in_suffix(s: Seq<char>, d: Seq<char>, start: int)
    requires
        d.len() > 0,
        0 <= start <= s.len(),
        forall|j: int| start <= j ==> !occurs_at(s, d, j),
    ensures
        first_match_from(s.skip(start), d, 0) is None,
{
    let rest = s.skip(start);
    lemma_first_match(rest, d, 0);
    assert forall|j: int| 0 <= j implies occurs_at(rest, d, j) == occurs_at(s, d, j + start) by {
        if j + d.len() <= rest.len() {
            assert(rest.subrange(j, j + d.len()) =~= s.subrange(j + start, j + start + d.len()));
        }
    }
}

/// Joins `entries` with `delimiter` between neighbours.
pub fn join_entries(entries: &Vec<String>, delimiter: &str) -> (out: String)
    ensures
        out@ == joined(texts(entries@), delimiter@),
{
    let mut out: String = String::new();
    let mut i: usize = 0;
    while i < entries.len()
        invariant
            i <= entries@.len(),
            out@ == joined(texts(entries@).take(i as int), delimiter@),
        decreases entries@.len() - i,
    {
        proof {
            let now = texts(entries@).take(i + 1);
            assert(now.drop_last() =~= texts(entries@).take(i as int));
        }
        if i > 0 {
            out.append(delimiter);
        }
        out.append(entries[i].as_str());
        i = i + 1;
    }
    proof {
        assert(texts(entries@).take(i as int) =~= texts(entries@));
    }
    out
}

/// Splitting never gives an empty list.
pub proof fn lemma_pieces_nonempty(s: Seq<char>, d: Seq<char>)
    ensures
        pieces(s, d).len() >= 1,
{
    lemma_first_match(s, d, 0);
}

/// No piece of a split holds the delimiter.
pub proof fn lemma_pieces_hold_no_delimiter(s: Seq<char>, d: Seq<char>)
    requires
        d.len() > 0,
    ensures
        forall|k: int|
            0 <= k < pieces(s, d).len() ==> !contains_delimiter(#[trigger] pieces(s, d)[k], d),
    decreases s.len(),
{
    lemma_first_match(s, d, 0);
    match first_match_from(s, d, 0) {
        None => {},
        Some(i) => {
            let head = s.take(i);
            let tail = pieces(s.skip(i + d.len()), d);
            lemma_pieces_hold_no_delimiter(s.skip(i + d.len()), d);
            assert forall|j: int| !occurs_at(head, d, j) by {
                if occurs_at(head, d, j) {
                    assert(head.subrange(j, j + d.len()) =~= s.subrange(j, j + d.len()));
                    assert(occurs_at(s, d, j));
                }
            }
            assert forall|k: int| 0 <= k < pieces(s, d).len() implies !contains_delimiter(
                #[trigger] pieces(s, d)[k],
                d,
            ) by {
                if k > 0 {
                    assert(pieces(s, d)[k] == tail[k - 1]);
                }
            }
        },
    }
}

/// In a join of two or more pieces the first piece and one delimiter stand
/// in front of the join of the others.
pub proof fn lemma_joined_front(parts: Seq<Seq<char>>, d: Seq<char>)
    requires
        parts.len() >= 2,
    ensures
        joined(parts, d) == parts[0] + d + joined(parts.drop_first(), d),
    decreases parts.len(),
{
    if parts.len() == 2 {
        assert(joined(parts.drop_last(), d) == parts[0]);
    } else {
        lemma_joined_front(parts.drop_last(), d);
        assert(parts.drop_last().drop_first() =~= parts.drop_first().drop_last());
    }
}

/// Joining the pieces of a split with the same delimiter gives the text
/// back, whatever the delimiter.
pub proof fn law_join_of_split(s: Seq<char>, d: Seq<char>)
    ensures
        joined(pieces(s, d), d) == s,
    decreases s.len(),
{
    lemma_first_match(s, d, 0);
    match first_match_from(s, d, 0) {
        None => {},
        Some(i) => {
            let rest = s.skip(i + d.len());
            law_join_of_split(rest, d);
            lemma_pieces_nonempty(rest, d);
            let all = pieces(s, d);
            lemma_joined_front(all, d);
            assert(all.drop_first() =~= pieces(rest, d));
        },
    }
}

/// Splitting a join on a one-character delimiter gives the pieces back,
/// where there is at least one piece and none of them holds the delimiter.
/// With a longer delimiter a match may begin inside a piece and end in the
/// delimiter behind it.
pub proof fn law_split_of_join(parts: Seq<Seq<char>>, d: Seq<char>)
    requires
        d.len() == 1,
        parts.len() >= 1,
        forall|k: int| 0 <= k < parts.len() ==> !contains_delimiter(#[trigger] parts[k], d),
    ensures
        pieces(joined(parts, d), d) == parts,
    decreases parts.len(),
{
    let whole = joined(parts, d);
    let head = parts[0];
    lemma_first_match(whole, d, 0);
    if parts.len() > 1 {
        let others = parts.drop_first();
        lemma_joined_front(parts, d);
        law_split_of_join(others, d);
        let at = head.len() as int;
        assert(whole.subrange(at, at + 1) =~= d);
        assert(occurs_at(whole, d, at));
        assert forall|j: int| 0 <= j < at implies !occurs_at(whole, d, j) by {
            if occurs_at(whole, d, j) {
                assert(head.subrange(j, j + 1) =~= whole.subrange(j, j + 1));
                assert(occurs_at(head, d, j));
            }
        }
        assert(whole.take(at) =~= head);
        assert(whole.skip(at + 1) =~= joined(others, d));
    }
}

} // verus!
