//! The collected entries and the fuzzy search over them.
use vstd::prelude::*;

use crate::entry::{opt_view, string_views, Entry, EntryView};
use crate::history::{usage_of, EntryHistory};
use crate::text::{
    char_to_lowercase, char_vecs, chars_eq, chars_of, concat_chars, copy_range, first_lower,
    lowercase_keeps_emptiness, lowercase_str, split_char, split_pieces, string_from_chars, to_lowercase, trim, trimmed,
};

verus! {

// ---------------------------------------------------------------------------
// Matching one string
// ---------------------------------------------------------------------------

/// Two characters that are equal once lower-cased.
pub open spec fn same_letter(a: char, b: char) -> bool {
    first_lower(a) == first_lower(b)
}

/// The first index `k >= i` where `h[k]` matches `c`.
pub open spec fn next_match(h: Seq<char>, c: char, i: int) -> Option<int>
    decreases h.len() - i,
{
    if i < 0 || i >= h.len() {
        None
    } else if same_letter(h[i], c) {
        Some(i)
    } else {
        next_match(h, c, i + 1)
    }
}

/// Where the greedy left-to-right match of `q[j..]` in `h`, starting at index
/// `from`, matches the last character of `q`.
pub open spec fn match_end(h: Seq<char>, q: Seq<char>, j: int, from: int) -> Option<int>
    decreases q.len() - j,
{
    if j < 0 || j >= q.len() {
        None
    } else {
        match next_match(h, q[j], from) {
            None => None,
            Some(p) => if j + 1 >= q.len() {
                Some(p)
            } else {
                match_end(h, q, j + 1, p + 1)
            },
        }
    }
}

/// How tightly `q` matches `h`: matching the characters of `q` in order,
/// each at the first fitting place, the distance from the first match to the
/// last. `None` where `h` is blank or `q` does not fit; 0 for an empty `q`.
pub open spec fn span_of(h: Seq<char>, q: Seq<char>) -> Option<nat> {
    if trimmed(h).len() == 0 {
        None
    } else if q.len() == 0 {
        Some(0)
    } else {
        match (next_match(h, q[0], 0), match_end(h, q, 0, 0)) {
            (Some(s), Some(e)) => Some((e - s) as nat),
            _ => None,
        }
    }
}

/// `idx` places `q[j..]` in `h`, in order, at indices from `from` on, each
/// character matching up to case.
pub open spec fn places(h: Seq<char>, q: Seq<char>, j: int, from: int, idx: Seq<int>) -> bool {
    &&& idx.len() == q.len() - j
    &&& forall|k: int| 0 <= k < idx.len() ==> from <= #[trigger] idx[k] < h.len()
    &&& forall|k: int| 0 <= k < idx.len() ==> same_letter(h[#[trigger] idx[k]], q[j + k])
    &&& forall|k: int, l: int| 0 <= k < l < idx.len() ==> #[trigger] idx[k] < #[trigger] idx[l]
}

/// `q` is, up to case, a subsequence of `h`.
pub open spec fn fits_in(q: Seq<char>, h: Seq<char>) -> bool {
    exists|idx: Seq<int>| places(h, q, 0, 0, idx)
}

/// `match_span` on character sequences.
fn span_chars(h: &[char], q: &[char]) -> (r: Option<usize>)
    ensures
        r matches Some(s) ==> span_of(h@, q@) == Some(s as nat),
        r is None ==> span_of(h@, q@) is None,
{
    let t = trim(h);
    if t.len() == 0 {
        return None;
    }
    let n = h.len();
    let m = q.len();
    let mut i: usize = 0;
    let mut j: usize = 0;
    let mut start: Option<usize> = None;
    let mut end: usize = 0;
    while i < n && j < m
        invariant
            i <= n == h@.len(),
            j <= m == q@.len(),
            j == 0 ==> start is None && end == 0,
            j == 0 && m > 0 ==> next_match(h@, q@[0], 0) == next_match(h@, q@[0], i as int)
                && match_end(h@, q@, 0, 0) == match_end(h@, q@, 0, i as int),
            j > 0 ==> (start matches Some(s) && next_match(h@, q@[0], 0) == Some(s as int) && s
                <= end < i),
            j > 0 && j == m ==> match_end(h@, q@, 0, 0) == Some(end as int),
            j > 0 && j < m ==> match_end(h@, q@, 0, 0) == match_end(h@, q@, j as int, i as int),
        decreases n - i,
    {
        if char_to_lowercase(h[i]) == char_to_lowercase(q[j]) {
            assert(next_match(h@, q@[j as int], i as int) == Some(i as int));
            if start.is_none() {
                start = Some(i);
            }
            end = i;
            j = j + 1;
        } else {
            assert(next_match(h@, q@[j as int], i as int) == next_match(h@, q@[j as int], i + 1));
        }
        i = i + 1;
    }
    if j == m {
        let s = match start {
            Some(s) => s,
            None => 0,
        };
        Some(end - s)
    } else {
        assert(next_match(h@, q@[j as int], i as int) is None);
        None
    }
}

/// How tightly `query` (already lower-cased) matches `haystack`, ignoring
/// case; `None` where `haystack` is blank or does not hold the characters of
/// `query` in order.
pub fn match_span(haystack: &str, query: &str) -> (r: Option<usize>)
    ensures
        r matches Some(s) ==> span_of(haystack@, query@) == Some(s as nat),
        r is None ==> span_of(haystack@, query@) is None,
{
    let h = chars_of(haystack);
    let q = chars_of(query);
    span_chars(&h, &q)
}

// ---------------------------------------------------------------------------
// The fuzzy-matching law
// ---------------------------------------------------------------------------

proof fn lemma_next_match_found(h: Seq<char>, c: char, i: int)
    requires
        0 <= i,
    ensures
        next_match(h, c, i) matches Some(p) ==> i <= p < h.len() && same_letter(h[p], c),
    decreases h.len() - i,
{
    if i < h.len() && !same_letter(h[i], c) {
        lemma_next_match_found(h, c, i + 1);
    }
}

proof fn lemma_next_match_first(h: Seq<char>, c: char, i: int, k: int)
    requires
        0 <= i <= k < h.len(),
        same_letter(h[k], c),
    ensures
        (next_match(h, c, i) matches Some(p) && p <= k),
    decreases k - i,
{
    if i < k && !same_letter(h[i], c) {
        lemma_next_match_first(h, c, i + 1, k);
    }
}

/// A greedy match gives the places where it matched.
proof fn lemma_match_end_places(h: Seq<char>, q: Seq<char>, j: int, from: int) -> (idx: Seq<int>)
    requires
        0 <= j < q.len(),
        0 <= from,
        match_end(h, q, j, from) is Some,
    ensures
        places(h, q, j, from, idx),
    decreases q.len() - j,
{
    let p = next_match(h, q[j], from)->0;
    lemma_next_match_found(h, q[j], from);
    if j + 1 >= q.len() {
        let idx = seq![p];
        assert(places(h, q, j, from, idx));
        idx
    } else {
        let rest = lemma_match_end_places(h, q, j + 1, p + 1);
        let idx = seq![p] + rest;
        assert forall|k: int| 0 <= k < idx.len() implies from <= #[trigger] idx[k] < h.len() by {
            if k > 0 {
                assert(idx[k] == rest[k - 1]);
            }
        }
        assert forall|k: int| 0 <= k < idx.len() implies same_letter(
            h[#[trigger] idx[k]],
            q[j + k],
        ) by {
            if k > 0 {
                assert(idx[k] == rest[k - 1]);
                assert(same_letter(h[rest[k - 1]], q[j + 1 + (k - 1)]));
            }
        }
        assert forall|k: int, l: int| 0 <= k < l < idx.len() implies #[trigger] idx[k]
            < #[trigger] idx[l] by {
            assert(idx[l] == rest[l - 1]);
            if k > 0 {
                assert(idx[k] == rest[k - 1]);
            }
        }
        idx
    }
}

/// Where the characters fit in order, the greedy match succeeds.
proof fn lemma_places_match_end(h: Seq<char>, q: Seq<char>, j: int, from: int, idx: Seq<int>)
    requires
        0 <= j < q.len(),
        0 <= from,
        places(h, q, j, from, idx),
    ensures
        match_end(h, q, j, from) is Some,
    decreases q.len() - j,
{
    assert(from <= idx[0] < h.len());
    assert(same_letter(h[idx[0]], q[j + 0]));
    lemma_next_match_first(h, q[j], from, idx[0]);
    lemma_next_match_found(h, q[j], from);
    let p = next_match(h, q[j], from)->0;
    if j + 1 < q.len() {
        let rest = idx.drop_first();
        assert forall|k: int| 0 <= k < rest.len() implies p + 1 <= #[trigger] rest[k] < h.len() by {
            assert(rest[k] == idx[k + 1]);
            assert(idx[0] < idx[k + 1]);
        }
        assert forall|k: int| 0 <= k < rest.len() implies same_letter(
            h[#[trigger] rest[k]],
            q[j + 1 + k],
        ) by {
            assert(rest[k] == idx[k + 1]);
            assert(same_letter(h[idx[k + 1]], q[j + (k + 1)]));
        }
        assert forall|k: int, l: int| 0 <= k < l < rest.len() implies #[trigger] rest[k]
            < #[trigger] rest[l] by {
            assert(rest[k] == idx[k + 1]);
            assert(rest[l] == idx[l + 1]);
        }
        lemma_places_match_end(h, q, j + 1, p + 1, rest);
    }
}

/// Where the greedy match may look for `q[k]`: from the start for the first
/// character, just after the place of the previous one otherwise.
pub open spec fn search_start(idx: Seq<int>, k: int) -> int {
    if k == 0 {
        0
    } else {
        idx[k - 1] + 1
    }
}

/// `idx` is where the greedy left-to-right match places the characters of
/// `q` in `h`: each `q[k]` at the first index, from `search_start(idx, k)`
/// on, whose character is the same letter.
pub open spec fn greedy_places(h: Seq<char>, q: Seq<char>, idx: Seq<int>) -> bool {
    &&& idx.len() == q.len()
    &&& forall|k: int|
        0 <= k < idx.len() ==> search_start(idx, k) <= #[trigger] idx[k] < h.len() && same_letter(
            h[idx[k]],
            q[k],
        )
    &&& forall|k: int, m: int|
        0 <= k < idx.len() && search_start(idx, k) <= m < idx[k] ==> !#[trigger] same_letter(
            h[m],
            q[k],
        )
}

proof fn lemma_next_match_at(h: Seq<char>, c: char, i: int, p: int)
    requires
        0 <= i <= p < h.len(),
        same_letter(h[p], c),
        forall|m: int| i <= m < p ==> !#[trigger] same_letter(h[m], c),
    ensures
        next_match(h, c, i) == Some(p),
    decreases p - i,
{
    if i < p {
        assert(!same_letter(h[i], c));
        lemma_next_match_at(h, c, i + 1, p);
    }
}

proof fn lemma_greedy_nonneg(h: Seq<char>, q: Seq<char>, idx: Seq<int>, k: int)
    requires
        greedy_places(h, q, idx),
        0 <= k < q.len(),
    ensures
        0 <= search_start(idx, k),
    decreases k,
{
    if k > 0 {
        lemma_greedy_nonneg(h, q, idx, k - 1);
        assert(search_start(idx, k - 1) <= idx[k - 1]);
    }
}

proof fn lemma_match_end_greedy(h: Seq<char>, q: Seq<char>, idx: Seq<int>, k: int)
    requires
        greedy_places(h, q, idx),
        0 <= k < q.len(),
    ensures
        next_match(h, q[k], search_start(idx, k)) == Some(idx[k]),
        match_end(h, q, k, search_start(idx, k)) == Some(idx[q.len() - 1]),
    decreases q.len() - k,
{
    let st = search_start(idx, k);
    assert(st <= idx[k] < h.len() && same_letter(h[idx[k]], q[k]));
    assert forall|m: int| st <= m < idx[k] implies !#[trigger] same_letter(h[m], q[k]) by {}
    lemma_greedy_nonneg(h, q, idx, k);
    lemma_next_match_at(h, q[k], st, idx[k]);
    if k + 1 < q.len() {
        lemma_match_end_greedy(h, q, idx, k + 1);
        assert(search_start(idx, k + 1) == idx[k] + 1);
    }
}

/// The span is the distance from the first matched character to the last: for
/// a haystack that is not blank and a non-empty query placed greedily at
/// `idx`, the span is `idx[last] - idx[0]`.
pub proof fn lemma_span_is_greedy_distance(h: Seq<char>, q: Seq<char>, idx: Seq<int>)
    requires
        trimmed(h).len() > 0,
        q.len() > 0,
        greedy_places(h, q, idx),
    ensures
        span_of(h, q) == Some((idx[q.len() - 1] - idx[0]) as nat),
        idx[0] <= idx[q.len() - 1] < h.len(),
{
    lemma_match_end_greedy(h, q, idx, 0);
    assert forall|k: int| 0 < k < q.len() implies idx[k - 1] < #[trigger] idx[k] by {
        assert(search_start(idx, k) <= idx[k]);
    }
    lemma_greedy_increasing(idx, q.len() - 1);
}

proof fn lemma_greedy_increasing(idx: Seq<int>, k: int)
    requires
        0 <= k < idx.len(),
        forall|j: int| 0 < j < idx.len() ==> idx[j - 1] < #[trigger] idx[j],
    ensures
        idx[0] <= idx[k],
    decreases k,
{
    if k > 0 {
        lemma_greedy_increasing(idx, k - 1);
    }
}

/// Fuzzy matching finds exactly the subsequences: `match_span` gives a span
/// if and only if the haystack is not blank and the query's characters occur
/// in it in order, up to case.
pub proof fn lemma_span_iff_fits(h: Seq<char>, q: Seq<char>)
    ensures
        span_of(h, q) is Some <==> (trimmed(h).len() > 0 && fits_in(q, h)),
{
    if trimmed(h).len() > 0 {
        if q.len() == 0 {
            let idx = Seq::<int>::empty();
            assert(places(h, q, 0, 0, idx));
        } else {
            if match_end(h, q, 0, 0) is Some {
                let idx = lemma_match_end_places(h, q, 0, 0);
                assert(idx[0] >= 0 && same_letter(h[idx[0]], q[0int + 0int]));
                lemma_next_match_first(h, q[0], 0, idx[0]);
                assert(places(h, q, 0, 0, idx));
            }
            if fits_in(q, h) {
                let idx = choose|idx: Seq<int>| places(h, q, 0, 0, idx);
                lemma_places_match_end(h, q, 0, 0, idx);
                assert(same_letter(h[idx[0]], q[0int + 0int]));
                lemma_next_match_first(h, q[0], 0, idx[0]);
            }
        }
    }
}

// ---------------------------------------------------------------------------
// The collection and its search
// ---------------------------------------------------------------------------

/// The strings that a search matches against an entry: its shown name, then
/// its keywords.
pub open spec fn candidates(e: EntryView) -> Seq<Seq<char>> {
    seq![e.name] + e.keywords
}

pub open spec fn min_span(a: Option<nat>, b: Option<nat>) -> Option<nat> {
    match (a, b) {
        (Some(x), Some(y)) => Some(if x <= y { x } else { y }),
        (Some(x), None) => Some(x),
        (None, y) => y,
    }
}

/// The tightest span of `q` over the strings `cands`.
pub open spec fn best_span(cands: Seq<Seq<char>>, q: Seq<char>) -> Option<nat>
    decreases cands.len(),
{
    if cands.len() == 0 {
        None
    } else {
        min_span(best_span(cands.drop_last(), q), span_of(cands.last(), q))
    }
}

/// The score of a match (lower is better): tightness counts against, past
/// launches count for, and the score does not go below 0.
pub open spec fn score_of(span: nat, usage: u32) -> nat {
    if span * 100 >= usage * 30 {
        (span * 100 - usage * 30) as nat
    } else {
        0
    }
}

/// No earlier entry has the same name: of entries that share a name, only the
/// first takes part in a search.
pub open spec fn first_of_name(es: Seq<EntryView>, i: int) -> bool {
    forall|j: int| 0 <= j < i ==> es[j].name != es[i].name
}

/// Entry `i` takes part in a search for `q` and matches it.
pub open spec fn eligible(es: Seq<EntryView>, q: Seq<char>, i: int) -> bool {
    &&& 0 <= i < es.len()
    &&& first_of_name(es, i)
    &&& best_span(candidates(es[i]), q) is Some
}

pub open spec fn entry_score(
    es: Seq<EntryView>,
    h: Map<Seq<char>, u32>,
    q: Seq<char>,
    i: int,
) -> nat {
    score_of(best_span(candidates(es[i]), q)->0, usage_of(h, es[i].name))
}

/// `r` is the result of searching for `q`: the first eligible entry of lowest
/// score, or `None` where no entry is eligible.
pub open spec fn is_best_match(
    es: Seq<EntryView>,
    h: Map<Seq<char>, u32>,
    q: Seq<char>,
    r: Option<usize>,
) -> bool {
    match r {
        None => forall|i: int| !eligible(es, q, i),
        Some(i) => {
            &&& eligible(es, q, i as int)
            &&& forall|j: int|
                eligible(es, q, j) ==> entry_score(es, h, q, i as int) <= entry_score(es, h, q, j)
                    && (j < i ==> entry_score(es, h, q, i as int) < entry_score(es, h, q, j))
        },
    }
}

/// `r` is the result of an empty search: the last of the most launched
/// entries, or `None` where there are no entries.
pub open spec fn is_most_used(es: Seq<EntryView>, h: Map<Seq<char>, u32>, r: Option<usize>) -> bool {
    match r {
        None => es.len() == 0,
        Some(i) => {
            &&& i < es.len()
            &&& forall|j: int|
                0 <= j < es.len() ==> usage_of(h, es[j].name) <= usage_of(h, es[i as int].name)
                    && (j > i ==> usage_of(h, es[j].name) < usage_of(h, es[i as int].name))
        },
    }
}

proof fn lemma_best_span_some(cands: Seq<Seq<char>>, q: Seq<char>)
    ensures
        best_span(cands, q) is Some <==> exists|k: int|
            0 <= k < cands.len() && #[trigger] span_of(cands[k], q) is Some,
    decreases cands.len(),
{
    if cands.len() > 0 {
        let init = cands.drop_last();
        lemma_best_span_some(init, q);
        if best_span(init, q) is Some {
            let k = choose|k: int| 0 <= k < init.len() && #[trigger] span_of(init[k], q) is Some;
            assert(cands[k] == init[k]);
        }
        if exists|k: int| 0 <= k < cands.len() && #[trigger] span_of(cands[k], q) is Some {
            let k = choose|k: int| 0 <= k < cands.len() && #[trigger] span_of(cands[k], q) is Some;
            if k < cands.len() - 1 {
                assert(init[k] == cands[k]);
            }
        }
    }
}

/// An entry is ranked by its tightest candidate: the best span is the span of
/// one of the candidates, and no candidate that matches has a smaller span.
pub proof fn lemma_best_span_is_minimum(cands: Seq<Seq<char>>, q: Seq<char>)
    ensures
        best_span(cands, q) matches Some(s) ==> (exists|k: int|
            0 <= k < cands.len() && #[trigger] span_of(cands[k], q) == Some(s)),
        best_span(cands, q) matches Some(s) ==> forall|k: int|
            0 <= k < cands.len() && #[trigger] span_of(cands[k], q) is Some ==> s <= span_of(
                cands[k],
                q,
            )->0,
    decreases cands.len(),
{
    if cands.len() > 0 {
        let init = cands.drop_last();
        lemma_best_span_is_minimum(init, q);
        lemma_best_span_some(init, q);
        let last = cands.len() - 1;
        assert(cands[last] == cands.last());
        if let Some(s) = best_span(cands, q) {
            if let Some(b) = best_span(init, q) {
                let k0 = choose|k: int| 0 <= k < init.len() && #[trigger] span_of(init[k], q) == Some(b);
                assert(cands[k0] == init[k0]);
            }
            assert forall|k: int|
                0 <= k < cands.len() && #[trigger] span_of(cands[k], q) is Some implies s
                <= span_of(cands[k], q)->0 by {
                if k < last {
                    assert(cands[k] == init[k]);
                    assert(span_of(init[k], q) is Some);
                    assert(best_span(init, q) is Some);
                }
            }
        }
    }
}

/// Search finds exactly the fuzzy matches: an entry takes part in a search
/// and matches `q` if and only if it is the first with its name and `q` fits,
/// in order and up to case, in its name or in one of its keywords that is not
/// blank.
pub proof fn lemma_eligible_iff_fits(es: Seq<EntryView>, q: Seq<char>, i: int)
    requires
        0 <= i < es.len(),
    ensures
        eligible(es, q, i) <==> first_of_name(es, i) && exists|k: int|
            0 <= k < candidates(es[i]).len() && trimmed(#[trigger] candidates(es[i])[k]).len() > 0
                && fits_in(q, candidates(es[i])[k]),
{
    let cands = candidates(es[i]);
    lemma_best_span_some(cands, q);
    if best_span(cands, q) is Some {
        let k = choose|k: int| 0 <= k < cands.len() && #[trigger] span_of(cands[k], q) is Some;
        lemma_span_iff_fits(cands[k], q);
    }
    if exists|k: int|
        0 <= k < cands.len() && trimmed(#[trigger] cands[k]).len() > 0 && fits_in(q, cands[k]) {
        let k = choose|k: int|
            0 <= k < cands.len() && trimmed(#[trigger] cands[k]).len() > 0 && fits_in(q, cands[k]);
        lemma_span_iff_fits(cands[k], q);
    }
}

/// The result of a search for `query`, as `EntryCollection::search` states it.
pub open spec fn searched(
    es: Seq<EntryView>,
    h: Map<Seq<char>, u32>,
    query: Seq<char>,
    r: Option<usize>,
) -> bool {
    &&& query.len() == 0 ==> is_most_used(es, h, r)
    &&& query.len() > 0 ==> is_best_match(es, h, lowercase_str(query), r)
}

proof fn lemma_best_match_unique(
    es: Seq<EntryView>,
    h: Map<Seq<char>, u32>,
    q: Seq<char>,
    r1: Option<usize>,
    r2: Option<usize>,
)
    requires
        is_best_match(es, h, q, r1),
        is_best_match(es, h, q, r2),
    ensures
        r1 == r2,
{
    if r1 is Some && r2 is Some {
        let i = r1->0 as int;
        let j = r2->0 as int;
        assert(eligible(es, q, i) && eligible(es, q, j));
    } else if r1 is Some {
        assert(eligible(es, q, r1->0 as int));
    } else if r2 is Some {
        assert(eligible(es, q, r2->0 as int));
    }
}

proof fn lemma_most_used_unique(
    es: Seq<EntryView>,
    h: Map<Seq<char>, u32>,
    r1: Option<usize>,
    r2: Option<usize>,
)
    requires
        is_most_used(es, h, r1),
        is_most_used(es, h, r2),
    ensures
        r1 == r2,
{
    if r1 is Some && r2 is Some {
        let i = r1->0 as int;
        let j = r2->0 as int;
        assert(0 <= i < es.len() && 0 <= j < es.len());
    }
}

/// Search ignores case: two queries that lower-case to the same text give the
/// same result. Lower-casing keeps emptiness, as `str::to_lowercase` does for
/// every string (`search` ensures it of its query).
pub proof fn lemma_search_ignores_case(
    es: Seq<EntryView>,
    h: Map<Seq<char>, u32>,
    q1: Seq<char>,
    q2: Seq<char>,
    r1: Option<usize>,
    r2: Option<usize>,
)
    requires
        lowercase_str(q1) == lowercase_str(q2),
        lowercase_keeps_emptiness(q1),
        lowercase_keeps_emptiness(q2),
        searched(es, h, q1, r1),
        searched(es, h, q2, r2),
    ensures
        r1 == r2,
{
    if q1.len() == 0 {
        lemma_most_used_unique(es, h, r1, r2);
    } else {
        lemma_best_match_unique(es, h, lowercase_str(q1), r1, r2);
    }
}

/// A query that matches keeps matching when characters are taken off its end:
/// every prefix of a matching query matches.
pub proof fn lemma_span_prefix(h: Seq<char>, q: Seq<char>, k: int)
    requires
        0 <= k <= q.len(),
        span_of(h, q) is Some,
    ensures
        span_of(h, q.take(k)) is Some,
{
    lemma_span_iff_fits(h, q);
    lemma_span_iff_fits(h, q.take(k));
    let idx = choose|idx: Seq<int>| places(h, q, 0, 0, idx);
    let sub = idx.take(k);
    assert forall|m: int| 0 <= m < sub.len() implies same_letter(
        h[#[trigger] sub[m]],
        q.take(k)[0 + m],
    ) by {
        assert(sub[m] == idx[m]);
        assert(same_letter(h[idx[m]], q[0 + m]));
    }
    assert(places(h, q.take(k), 0, 0, sub));
}

/// The non-empty strings of `s`, in order.
pub open spec fn without_empty(s: Seq<Seq<char>>) -> Seq<Seq<char>>
    decreases s.len(),
{
    if s.len() == 0 {
        Seq::empty()
    } else {
        (if s[0].len() > 0 {
            seq![s[0]]
        } else {
            Seq::empty()
        }) + without_empty(s.drop_first())
    }
}

/// The application directories that `applications_dirs` lists.
pub open spec fn data_dirs_of(
    home: Seq<char>,
    data_home: Option<Seq<char>>,
    data_dirs: Option<Seq<char>>,
) -> Seq<Seq<char>> {
    let dh = match data_home {
        Some(d) => d,
        None => home + "/.local/share"@,
    };
    let dd = match data_dirs {
        Some(d) => d,
        None => "/usr/local/share:/usr/share"@,
    };
    let all = without_empty(seq![dh] + split_pieces(dd, ':')) + seq![
        "/var/lib/flatpak/exports/share"@,
        home + "/.local/share/flatpak/exports/share"@,
    ];
    all.remove_duplicates(Seq::empty()).map_values(|d: Seq<char>| d + "/applications"@)
}

/// All the desktop entries found.
pub struct EntryCollection {
    entries: Vec<Entry>,
    /// For each entry, whether it is the first with its name.
    first: Vec<bool>,
}

impl View for EntryCollection {
    type V = Seq<EntryView>;

    closed spec fn view(&self) -> Seq<EntryView> {
        self.entries@.map_values(|e: Entry| e@)
    }
}

impl EntryCollection {
    /// The flags agree with the entries.
    pub closed spec fn wf(&self) -> bool {
        &&& self.first@.len() == self.entries@.len()
        &&& forall|i: int|
            0 <= i < self.first@.len() ==> self.first@[i] == first_of_name(self@, i)
    }

    /// The collection of `entries`, in order.
    pub fn from_entries(entries: Vec<Entry>) -> (r: EntryCollection)
        ensures
            r.wf(),
            r@ == entries@.map_values(|e: Entry| e@),
    {
        let ghost es = entries@.map_values(|e: Entry| e@);
        let mut first: Vec<bool> = Vec::new();
        let mut i: usize = 0;
        while i < entries.len()
            invariant
                i <= entries@.len(),
                es == entries@.map_values(|e: Entry| e@),
                first@.len() == i,
                forall|k: int| 0 <= k < i ==> first@[k] == first_of_name(es, k),
            decreases entries.len() - i,
        {
            let name = chars_of(entries[i].get_name());
            let mut j: usize = 0;
            let mut unique = true;
            while j < i
                invariant
                    j <= i < entries@.len(),
                    es == entries@.map_values(|e: Entry| e@),
                    name@ == es[i as int].name,
                    unique == (forall|k: int| 0 <= k < j ==> es[k].name != es[i as int].name),
                decreases i - j,
            {
                assert(es[j as int] == entries@[j as int]@);
                let other = chars_of(entries[j].get_name());
                if chars_eq(&other, &name) {
                    unique = false;
                }
                j = j + 1;
            }
            assert(es[i as int] == entries@[i as int]@);
            first.push(unique);
            i = i + 1;
        }
        EntryCollection { entries, first }
    }

    /// The directories that hold `.desktop` files, before checking which of
    /// them exist: `$XDG_DATA_HOME` (or `$HOME/.local/share`), the non-empty
    /// `:`-separated parts of `$XDG_DATA_DIRS` (or `/usr/local/share:/usr/share`),
    /// then the two Flatpak export directories, each listed once (first
    /// occurrence kept) and followed by `/applications`.
    pub fn applications_dirs(home: &str, data_home: Option<String>, data_dirs: Option<String>) -> (r: Vec<String>)
        ensures
            string_views(r@) == data_dirs_of(home@, opt_view(data_home), opt_view(data_dirs)),
    {
        let home_c = chars_of(home);
        let dh = match data_home {
            Some(d) => chars_of(d.as_str()),
            None => concat_chars(&home_c, &chars_of("/.local/share")),
        };
        let dd = match data_dirs {
            Some(d) => chars_of(d.as_str()),
            None => chars_of("/usr/local/share:/usr/share"),
        };
        let parts = split_char(&dd, ':');
        let ghost listed = seq![dh@] + char_vecs(parts@);
        let mut cands: Vec<Vec<char>> = Vec::new();
        if dh.len() > 0 {
            let c = copy_range(&dh, 0, dh.len());
            assert(c@ =~= dh@);
            cands.push(c);
        }
        assert(char_vecs(cands@) + without_empty(listed.skip(1)) == without_empty(listed)) by {
            assert(listed.skip(1) =~= listed.drop_first());
            assert(char_vecs(cands@) =~= if dh@.len() > 0 { seq![dh@] } else { Seq::empty() });
        }
        let mut i: usize = 0;
        while i < parts.len()
            invariant
                i <= parts@.len(),
                listed == seq![dh@] + char_vecs(parts@),
                char_vecs(cands@) + without_empty(listed.skip(i + 1)) == without_empty(listed),
            decreases parts.len() - i,
        {
            let ghost rest = listed.skip(i + 1);
            assert(rest[0] == parts@[i as int]@);
            assert(rest.drop_first() =~= listed.skip(i + 2));
            if parts[i].len() > 0 {
                let ghost before = char_vecs(cands@);
                let c = copy_range(&parts[i], 0, parts[i].len());
                assert(c@ =~= parts@[i as int]@);
                cands.push(c);
                assert(char_vecs(cands@) =~= before.push(parts@[i as int]@));
                assert(char_vecs(cands@) + without_empty(listed.skip(i + 2)) =~= before
                    + without_empty(rest));
            } else {
                assert(without_empty(rest) == without_empty(listed.skip(i + 2)));
            }
            i = i + 1;
        }
        assert(listed.skip(parts@.len() as int + 1) =~= Seq::<Seq<char>>::empty());
        assert(char_vecs(cands@) =~= without_empty(listed));
        let ghost kept = char_vecs(cands@);
        cands.push(chars_of("/var/lib/flatpak/exports/share"));
        cands.push(concat_chars(&home_c, &chars_of("/.local/share/flatpak/exports/share")));
        let ghost all = char_vecs(cands@);
        assert(all =~= kept + seq![
            "/var/lib/flatpak/exports/share"@,
            home@ + "/.local/share/flatpak/exports/share"@,
        ]);
        let mut seen: Vec<Vec<char>> = Vec::new();
        let mut out: Vec<String> = Vec::new();
        let suffix = chars_of("/applications");
        let mut k: usize = 0;
        assert(all.skip(0) =~= all);
        while k < cands.len()
            invariant
                k <= cands@.len(),
                all == char_vecs(cands@),
                suffix@ == "/applications"@,
                all.remove_duplicates(Seq::empty()) == all.skip(k as int).remove_duplicates(
                    char_vecs(seen@),
                ),
                string_views(out@) == char_vecs(seen@).map_values(
                    |d: Seq<char>| d + "/applications"@,
                ),
            decreases cands.len() - k,
        {
            let ghost rest = all.skip(k as int);
            assert(rest[0] == cands@[k as int]@);
            assert(rest.skip(1) =~= all.skip(k + 1));
            let mut j: usize = 0;
            let mut dup = false;
            while j < seen.len()
                invariant
                    j <= seen@.len(),
                    k < cands@.len(),
                    dup == (exists|m: int| 0 <= m < j && seen@[m]@ == cands@[k as int]@),
                decreases seen.len() - j,
            {
                if chars_eq(&seen[j], &cands[k]) {
                    dup = true;
                }
                j = j + 1;
            }
            assert(dup == char_vecs(seen@).contains(cands@[k as int]@)) by {
                if dup {
                    let m = choose|m: int| 0 <= m < seen@.len() && seen@[m]@ == cands@[k as int]@;
                    assert(char_vecs(seen@)[m] == cands@[k as int]@);
                }
                if char_vecs(seen@).contains(cands@[k as int]@) {
                    let m = choose|m: int|
                        0 <= m < char_vecs(seen@).len() && char_vecs(seen@)[m] == cands@[k as int]@;
                    assert(seen@[m]@ == cands@[k as int]@);
                }
            }
            if !dup {
                let c = copy_range(&cands[k], 0, cands[k].len());
                assert(c@ =~= cands@[k as int]@);
                let d = concat_chars(&c, &suffix);
                let ghost sv = char_vecs(seen@);
                let ghost ov = string_views(out@);
                seen.push(c);
                out.push(string_from_chars(&d));
                assert(char_vecs(seen@) =~= sv + seq![cands@[k as int]@]);
                assert(string_views(out@) =~= ov.push(d@));
                assert(string_views(out@) =~= char_vecs(seen@).map_values(
                    |d: Seq<char>| d + "/applications"@,
                ));
            }
            k = k + 1;
        }
        assert(all.skip(cands@.len() as int) =~= Seq::<Seq<char>>::empty());
        out
    }

    /// The number of entries.
    pub fn len(&self) -> (r: usize)
        ensures
            r == self@.len(),
    {
        self.entries.len()
    }

    /// Entry `index` (`collection[index]`).
    pub fn get(&self, index: usize) -> (r: &Entry)
        requires
            index < self@.len(),
        ensures
            r@ == self@[index as int],
    {
        &self.entries[index]
    }

    /// The tightest span of `q` over the entry's name and keywords.
    fn entry_span(e: &Entry, q: &[char]) -> (r: Option<usize>)
        ensures
            r matches Some(s) ==> best_span(candidates(e@), q@) == Some(s as nat),
            r is None ==> best_span(candidates(e@), q@) is None,
    {
        let ghost cands = candidates(e@);
        let name = chars_of(e.get_name());
        let mut best = span_chars(&name, q);
        let keywords = e.get_keywords();
        assert(cands.take(1).drop_last() =~= Seq::<Seq<char>>::empty());
        assert(cands.take(1).last() == e@.name);
        assert(best_span(cands.take(1).drop_last(), q@) is None);
        assert(best_span(cands.take(1), q@) == span_of(name@, q@));
        let mut k: usize = 0;
        while k < keywords.len()
            invariant
                k <= keywords@.len(),
                cands == candidates(e@),
                cands.len() == keywords@.len() + 1,
                string_views(keywords@) == e@.keywords,
                best matches Some(s) ==> best_span(cands.take(k + 1), q@) == Some(s as nat),
                best is None ==> best_span(cands.take(k + 1), q@) is None,
            decreases keywords.len() - k,
        {
            let kw = chars_of(keywords[k].as_str());
            assert(string_views(keywords@)[k as int] == keywords@[k as int]@);
            assert(cands[k + 1] == e@.keywords[k as int]);
            let s = span_chars(&kw, q);
            assert(cands.take(k + 2).drop_last() =~= cands.take(k + 1));
            assert(cands.take(k + 2).last() == cands[k + 1]);
            best = match (best, s) {
                (Some(x), Some(y)) => Some(if x <= y { x } else { y }),
                (Some(x), None) => Some(x),
                (None, y) => y,
            };
            k = k + 1;
        }
        assert(cands.take(keywords@.len() as int + 1) =~= cands);
        best
    }

    /// Searches for `q`, already lower-cased: the first entry, among those
    /// that are first with their name, whose best match of `q` (over its name
    /// and keywords) has the lowest score `span * 100 - launches * 30` (not
    /// below 0); `None` where no entry matches.
    pub fn search_lowered(&self, q: &str, history: &EntryHistory) -> (r: Option<usize>)
        requires
            self.wf(),
            history.wf(),
        ensures
            is_best_match(self@, history@, q@, r),
    {
        let qc = chars_of(q);
        let ghost es = self@;
        let mut best: Option<(usize, u128)> = None;
        let mut i: usize = 0;
        while i < self.entries.len()
            invariant
                i <= self.entries@.len() == es.len(),
                es == self@,
                self.wf(),
                history.wf(),
                qc@ == q@,
                best is None ==> forall|k: int| 0 <= k < i ==> !eligible(es, q@, k),
                best matches Some(bs) ==> {
                    &&& bs.0 < i
                    &&& eligible(es, q@, bs.0 as int)
                    &&& bs.1 == entry_score(es, history@, q@, bs.0 as int)
                    &&& forall|k: int|
                        0 <= k < i && eligible(es, q@, k) ==> bs.1 <= entry_score(
                            es,
                            history@,
                            q@,
                            k,
                        ) && (k < bs.0 ==> bs.1 < entry_score(es, history@, q@, k))
                },
            decreases self.entries.len() - i,
        {
            let e = &self.entries[i];
            assert(es[i as int] == e@);
            if self.first[i] {
                match Self::entry_span(e, &qc) {
                    Some(span) => {
                        let usage = history.usage(e.get_name());
                        let score = (span as u128 * 100).saturating_sub(usage as u128 * 30);
                        assert(score == entry_score(es, history@, q@, i as int));
                        let better = match best {
                            None => true,
                            Some((_, best_score)) => score < best_score,
                        };
                        if better {
                            best = Some((i, score));
                        }
                    },
                    None => {},
                }
            }
            i = i + 1;
        }
        match best {
            Some((b, _)) => Some(b),
            None => None,
        }
    }

    /// Searches the entries for `query`. An empty query gives the last of the
    /// most launched entries; otherwise the query is lower-cased and the
    /// result is that of `search_lowered`. Lower-casing the query keeps its
    /// emptiness, which `lemma_search_ignores_case` needs.
    pub fn search(&self, query: &str, history: &EntryHistory) -> (r: Option<usize>)
        requires
            self.wf(),
            history.wf(),
        ensures
            query@.len() == 0 ==> is_most_used(self@, history@, r),
            query@.len() > 0 ==> is_best_match(self@, history@, lowercase_str(query@), r),
            lowercase_keeps_emptiness(query@),
    {
        let q = to_lowercase(query);
        if query.is_empty() {
            return self.most_used(history);
        }
        self.search_lowered(q.as_str(), history)
    }

    fn most_used(&self, history: &EntryHistory) -> (r: Option<usize>)
        requires
            history.wf(),
        ensures
            is_most_used(self@, history@, r),
    {
        let ghost es = self@;
        let n = self.entries.len();
        if n == 0 {
            return None;
        }
        let mut b: usize = 0;
        let mut top = history.usage(self.entries[0].get_name());
        assert(es[0] == self.entries@[0]@);
        let mut i: usize = 1;
        while i < n
            invariant
                1 <= i <= n == es.len(),
                es == self@,
                history.wf(),
                b < i,
                top == usage_of(history@, es[b as int].name),
                forall|j: int| 0 <= j < i ==> usage_of(history@, es[j].name) <= top,
                forall|j: int| b < j < i ==> usage_of(history@, es[j].name) < top,
            decreases n - i,
        {
            assert(es[i as int] == self.entries@[i as int]@);
            let u = history.usage(self.entries[i].get_name());
            if u >= top {
                b = i;
                top = u;
            }
            i = i + 1;
        }
        Some(b)
    }
}

} // verus!
