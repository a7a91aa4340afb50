//! Character-level text primitives shared by the parsers and the matcher.
//!
//! Strings are handled as sequences of `char`s: their view is `Seq<char>`.
use vstd::prelude::*;

verus! {

// ---------------------------------------------------------------------------
// Character classes
// ---------------------------------------------------------------------------

/// The Unicode `White_Space` property (PropList.txt), which `char::is_whitespace` tests.
pub open spec fn is_white_space(c: char) -> bool {
    ||| ('\u{9}' <= c && c <= '\u{d}')
    ||| c == ' '
    ||| c == '\u{85}'
    ||| c == '\u{a0}'
    ||| c == '\u{1680}'
    ||| ('\u{2000}' <= c && c <= '\u{200a}')
    ||| c == '\u{2028}'
    ||| c == '\u{2029}'
    ||| c == '\u{202f}'
    ||| c == '\u{205f}'
    ||| c == '\u{3000}'
}

/// ASCII punctuation: `!"#$%&'()*+,-./`, `:;<=>?@`, `[\]^_` and a backquote, `{|}~`.
pub open spec fn is_ascii_punct(c: char) -> bool {
    ||| ('!' <= c && c <= '/')
    ||| (':' <= c && c <= '@')
    ||| ('[' <= c && c <= '`')
    ||| ('{' <= c && c <= '~')
}

/// The ASCII lower-case form of `c` (non-letters are unchanged).
pub open spec fn ascii_lower(c: char) -> char {
    if 'A' <= c && c <= 'Z' {
        ((c as u32) + 32) as char
    } else {
        c
    }
}

pub open spec fn is_ascii_char(c: char) -> bool {
    (c as u32) < 128
}

/// The characters that `char::to_lowercase` yields for `c` (its Unicode
/// lower-case mapping).
pub uninterp spec fn lowercase_char(c: char) -> Seq<char>;

/// The first character of the lower-case mapping of `c`.
pub open spec fn first_lower(c: char) -> char {
    lowercase_char(c)[0]
}

/// What `str::to_lowercase` returns for a string with the characters `s`.
pub uninterp spec fn lowercase_str(s: Seq<char>) -> Seq<char>;

/// Lower-casing `s` gives the empty text exactly when `s` is empty.
pub open spec fn lowercase_keeps_emptiness(s: Seq<char>) -> bool {
    (lowercase_str(s).len() == 0) == (s.len() == 0)
}

/// Whether `c` has the Unicode `White_Space` property, as `char::is_whitespace`
/// tests it.
pub(crate) fn is_whitespace(c: char) -> (r: bool)
    ensures
        r == is_white_space(c),
{
    ('\u{9}' <= c && c <= '\u{d}') || c == ' ' || c == '\u{85}' || c == '\u{a0}' || c
        == '\u{1680}' || ('\u{2000}' <= c && c <= '\u{200a}') || c == '\u{2028}' || c
        == '\u{2029}' || c == '\u{202f}' || c == '\u{205f}' || c == '\u{3000}'
}

/// Whether `c` is ASCII punctuation, as `char::is_ascii_punctuation` tests it.
pub(crate) fn is_ascii_punctuation(c: char) -> (r: bool)
    ensures
        r == is_ascii_punct(c),
{
    ('!' <= c && c <= '/') || (':' <= c && c <= '@') || ('[' <= c && c <= '`') || ('{' <= c
        && c <= '~')
}

/// Calls `char::to_lowercase` and collects what it yields. The result is named
/// by `lowercase_char`; the contract states what the documentation gives: one
/// or more characters, and for an ASCII character its ASCII lower-case form
/// alone (characters without a mapping map to themselves).
#[verifier::external_body]
fn lowercase_mapping(c: char) -> (r: Vec<char>)
    ensures
        r@ == lowercase_char(c),
        r@.len() >= 1,
        is_ascii_char(c) ==> r@ == seq![ascii_lower(c)],
{
    c.to_lowercase().collect()
}

/// The first character of the lower-case mapping of `c`.
pub(crate) fn char_to_lowercase(c: char) -> (r: char)
    ensures
        r == first_lower(c),
        is_ascii_char(c) ==> r == ascii_lower(c),
{
    let m = lowercase_mapping(c);
    m[0]
}

/// Calls `str::to_lowercase`. The result is named by `lowercase_str`; the
/// contract states what the documentation gives: each character is replaced
/// by its lower-case mapping of one or more characters, so the result is empty
/// exactly when `s` is, and an all-ASCII string is mapped character by
/// character by the ASCII lower-case mapping.
#[verifier::external_body]
pub(crate) fn to_lowercase(s: &str) -> (r: String)
    ensures
        r@ == lowercase_str(s@),
        (r@.len() == 0) == (s@.len() == 0),
        (forall|i: int| 0 <= i < s@.len() ==> is_ascii_char(#[trigger] s@[i])) ==> r@
            == s@.map_values(|c: char| ascii_lower(c)),
{
    s.to_lowercase()
}

// ---------------------------------------------------------------------------
// Conversions between strings and character vectors
// ---------------------------------------------------------------------------

/// The characters of `s`, in order.
pub(crate) fn chars_of(s: &str) -> (r: Vec<char>)
    ensures
        r@ == s@,
{
    broadcast use vstd::string::group_string_axioms;

    let mut out: Vec<char> = Vec::new();
    for c in iter: s.chars()
        invariant
            out@ == iter.seq().take(iter.index() as int),
    {
        out.push(c);
    }
    out
}

/// The string made of the characters of `v`, in order.
pub(crate) fn string_from_chars(v: &[char]) -> (r: String)
    ensures
        r@ == v@,
{
    let mut out = String::new();
    let mut i: usize = 0;
    while i < v.len()
        invariant
            i <= v@.len(),
            out@ == v@.take(i as int),
        decreases v.len() - i,
    {
        push_char(&mut out, v[i]);
        assert(v@.take(i + 1) =~= v@.take(i as int).push(v@[i as int]));
        i = i + 1;
    }
    assert(v@.take(v@.len() as int) =~= v@);
    out
}

/// Calls `String::push`: appends `c`.
#[verifier::external_body]
pub(crate) fn push_char(s: &mut String, c: char)
    ensures
        final(s)@ == old(s)@.push(c),
{
    s.push(c)
}

/// Calls `String::pop`: removes and returns the last character, if any.
#[verifier::external_body]
pub(crate) fn pop_char(s: &mut String) -> (r: Option<char>)
    ensures
        old(s)@.len() == 0 ==> r is None && final(s)@ == old(s)@,
        old(s)@.len() > 0 ==> r == Some(old(s)@.last()) && final(s)@ == old(s)@.drop_last(),
{
    s.pop()
}

// ---------------------------------------------------------------------------
// Trimming
// ---------------------------------------------------------------------------

/// `s` without its leading white space.
pub open spec fn trimmed_start(s: Seq<char>) -> Seq<char>
    decreases s.len(),
{
    if s.len() > 0 && is_white_space(s[0]) {
        trimmed_start(s.drop_first())
    } else {
        s
    }
}

/// `s` without its trailing white space.
pub open spec fn trimmed_end(s: Seq<char>) -> Seq<char>
    decreases s.len(),
{
    if s.len() > 0 && is_white_space(s.last()) {
        trimmed_end(s.drop_last())
    } else {
        s
    }
}

/// `s` without leading and trailing white space (`str::trim`).
pub open spec fn trimmed(s: Seq<char>) -> Seq<char> {
    trimmed_end(trimmed_start(s))
}

/// `s` without leading occurrences of `c`.
pub open spec fn stripped_start(s: Seq<char>, c: char) -> Seq<char>
    decreases s.len(),
{
    if s.len() > 0 && s[0] == c {
        stripped_start(s.drop_first(), c)
    } else {
        s
    }
}

/// `s` without trailing occurrences of `c`.
pub open spec fn stripped_end(s: Seq<char>, c: char) -> Seq<char>
    decreases s.len(),
{
    if s.len() > 0 && s.last() == c {
        stripped_end(s.drop_last(), c)
    } else {
        s
    }
}

/// `s` without leading and trailing occurrences of `c` (`str::trim_matches(c)`).
pub open spec fn stripped(s: Seq<char>, c: char) -> Seq<char> {
    stripped_end(stripped_start(s, c), c)
}

/// A trimmed string that begins and ends with a non-space is its own trim.
pub proof fn lemma_trimmed_id(s: Seq<char>)
    requires
        s.len() > 0 ==> !is_white_space(s[0]) && !is_white_space(s.last()),
    ensures
        trimmed(s) == s,
{
}

proof fn lemma_subrange_step<A>(s: Seq<A>, i: int, j: int)
    requires
        0 <= i < j <= s.len(),
    ensures
        s.subrange(i, j).drop_first() =~= s.subrange(i + 1, j),
        s.subrange(i, j).drop_last() =~= s.subrange(i, j - 1),
        s.subrange(i, j)[0] == s[i],
        s.subrange(i, j).last() == s[j - 1],
{
}

/// `str::trim` on a character slice.
pub fn trim(s: &[char]) -> (r: Vec<char>)
    ensures
        r@ == trimmed(s@),
{
    let n = s.len();
    let mut i: usize = 0;
    assert(s@.subrange(0, n as int) =~= s@);
    while i < n && is_whitespace(s[i])
        invariant
            i <= n == s@.len(),
            trimmed_start(s@) == trimmed_start(s@.subrange(i as int, n as int)),
        decreases n - i,
    {
        proof {
            lemma_subrange_step(s@, i as int, n as int);
        }
        i = i + 1;
    }
    let mut j: usize = n;
    while j > i && is_whitespace(s[j - 1])
        invariant
            i <= j <= n == s@.len(),
            trimmed_start(s@) == s@.subrange(i as int, n as int),
            trimmed_end(s@.subrange(i as int, n as int)) == trimmed_end(
                s@.subrange(i as int, j as int),
            ),
        decreases j,
    {
        proof {
            lemma_subrange_step(s@, i as int, j as int);
        }
        j = j - 1;
    }
    assert(j > i ==> s@.subrange(i as int, j as int).last() == s@[j - 1]);
    let mut out: Vec<char> = Vec::new();
    let mut k: usize = i;
    while k < j
        invariant
            i <= k <= j <= n == s@.len(),
            out@ =~= s@.subrange(i as int, k as int),
        decreases j - k,
    {
        out.push(s[k]);
        k = k + 1;
    }
    out
}

/// `str::trim_matches(c)` for a single character `c`, on a character slice.
pub fn trim_char(s: &[char], c: char) -> (r: Vec<char>)
    ensures
        r@ == stripped(s@, c),
{
    let n = s.len();
    let mut i: usize = 0;
    assert(s@.subrange(0, n as int) =~= s@);
    while i < n && s[i] == c
        invariant
            i <= n == s@.len(),
            stripped_start(s@, c) == stripped_start(s@.subrange(i as int, n as int), c),
        decreases n - i,
    {
        proof {
            lemma_subrange_step(s@, i as int, n as int);
        }
        i = i + 1;
    }
    let mut j: usize = n;
    while j > i && s[j - 1] == c
        invariant
            i <= j <= n == s@.len(),
            stripped_start(s@, c) == s@.subrange(i as int, n as int),
            stripped_end(s@.subrange(i as int, n as int), c) == stripped_end(
                s@.subrange(i as int, j as int),
                c,
            ),
        decreases j,
    {
        proof {
            lemma_subrange_step(s@, i as int, j as int);
        }
        j = j - 1;
    }
    assert(j > i ==> s@.subrange(i as int, j as int).last() == s@[j - 1]);
    let mut out: Vec<char> = Vec::new();
    let mut k: usize = i;
    while k < j
        invariant
            i <= k <= j <= n == s@.len(),
            out@ =~= s@.subrange(i as int, k as int),
        decreases j - k,
    {
        out.push(s[k]);
        k = k + 1;
    }
    out
}

// ---------------------------------------------------------------------------
// Searching and splitting
// ---------------------------------------------------------------------------

/// The first index `k >= i` with `s[k] == c`, if there is one.
pub open spec fn first_index_from(s: Seq<char>, c: char, i: int) -> Option<int>
    decreases s.len() - i,
{
    if i < 0 || i >= s.len() {
        None
    } else if s[i] == c {
        Some(i)
    } else {
        first_index_from(s, c, i + 1)
    }
}

/// The index of the first `c` in `s`, if there is one (`str::find(c)`).
pub open spec fn first_index(s: Seq<char>, c: char) -> Option<int> {
    first_index_from(s, c, 0)
}

pub proof fn lemma_first_index_from(s: Seq<char>, c: char, i: int)
    requires
        0 <= i,
    ensures
        first_index_from(s, c, i) matches Some(k) ==> i <= k < s.len() && s[k] == c && forall|
            j: int,
        | i <= j < k ==> s[j] != c,
        first_index_from(s, c, i) is None ==> forall|j: int| i <= j < s.len() ==> s[j] != c,
    decreases s.len() - i,
{
    if i < s.len() && s[i] != c {
        lemma_first_index_from(s, c, i + 1);
    }
}

/// The first index is the one before which no `c` stands.
pub proof fn lemma_first_index_at(s: Seq<char>, c: char, i: int, k: int)
    requires
        0 <= i <= k < s.len(),
        s[k] == c,
        forall|j: int| i <= j < k ==> s[j] != c,
    ensures
        first_index_from(s, c, i) == Some(k),
    decreases k - i,
{
    if i < k {
        lemma_first_index_at(s, c, i + 1, k);
    }
}

/// `str::split_once(c)`: the parts before and after the first `c`.
pub open spec fn split_first(s: Seq<char>, c: char) -> Option<(Seq<char>, Seq<char>)> {
    match first_index(s, c) {
        Some(k) => Some((s.take(k), s.skip(k + 1))),
        None => None,
    }
}

/// The part of `s` before the first `c`, or all of `s` (`s.split(c).next()`).
pub open spec fn before_first(s: Seq<char>, c: char) -> Seq<char> {
    match first_index(s, c) {
        Some(k) => s.take(k),
        None => s,
    }
}

/// The pieces of `s[start..]` cut at each `c` from index `i` on, where
/// `s[start..i]` holds no `c`.
pub open spec fn pieces_from(s: Seq<char>, c: char, start: int, i: int) -> Seq<Seq<char>>
    decreases s.len() - i,
{
    if i < 0 || i >= s.len() {
        seq![s.subrange(start, s.len() as int)]
    } else if s[i] == c {
        seq![s.subrange(start, i)] + pieces_from(s, c, i + 1, i + 1)
    } else {
        pieces_from(s, c, start, i + 1)
    }
}

/// The pieces of `s` cut at every `c` (`str::split(c)`): one more than the
/// number of `c`s, empty pieces included.
pub open spec fn split_pieces(s: Seq<char>, c: char) -> Seq<Seq<char>> {
    pieces_from(s, c, 0, 0)
}

proof fn lemma_pieces_run(t: Seq<char>, c: char, start: int, i: int, j: int)
    requires
        0 <= start <= i <= j <= t.len(),
        forall|k: int| i <= k < j ==> t[k] != c,
    ensures
        pieces_from(t, c, start, i) == pieces_from(t, c, start, j),
    decreases j - i,
{
    if i < j {
        lemma_pieces_run(t, c, start, i + 1, j);
    }
}

proof fn lemma_pieces_shift(t: Seq<char>, c: char, k: int, a: int, i: int)
    requires
        0 <= k <= a <= i <= t.len(),
    ensures
        pieces_from(t, c, a, i) == pieces_from(t.skip(k), c, a - k, i - k),
    decreases t.len() - i,
{
    let u = t.skip(k);
    if i >= t.len() {
        assert(t.subrange(a, t.len() as int) =~= u.subrange(a - k, u.len() as int));
    } else if t[i] == c {
        assert(u[i - k] == c);
        lemma_pieces_shift(t, c, k, i + 1, i + 1);
        assert(t.subrange(a, i) =~= u.subrange(a - k, i - k));
    } else {
        assert(u[i - k] == t[i]);
        lemma_pieces_shift(t, c, k, a, i + 1);
    }
}

/// Splitting a piece without `c`, then `c`, then `rest`, at `c` gives the
/// piece followed by the pieces of `rest`.
pub proof fn lemma_split_pieces_cons(piece: Seq<char>, c: char, rest: Seq<char>)
    requires
        !piece.contains(c),
    ensures
        split_pieces(piece + seq![c] + rest, c) == seq![piece] + split_pieces(rest, c),
{
    let t = piece + seq![c] + rest;
    let n = piece.len() as int;
    assert forall|k: int| 0 <= k < n implies t[k] != c by {
        assert(t[k] == piece[k]);
    }
    lemma_pieces_run(t, c, 0, 0, n);
    assert(t[n] == c);
    lemma_pieces_shift(t, c, n + 1, n + 1, n + 1);
    assert(t.skip(n + 1) =~= rest);
    assert(t.subrange(0, n) =~= piece);
}

/// Text without `c` is a single piece.
pub proof fn lemma_split_pieces_single(a: Seq<char>, c: char)
    requires
        !a.contains(c),
    ensures
        split_pieces(a, c) == seq![a],
{
    assert forall|k: int| 0 <= k < a.len() implies a[k] != c by {
        if a[k] == c {
            assert(a.contains(c));
        }
    }
    lemma_pieces_run(a, c, 0, 0, a.len() as int);
    assert(a.subrange(0, a.len() as int) =~= a);
}

/// Splitting `a`, then `c`, then `b` at `c` gives the pieces of `a` followed by
/// the pieces of `b`.
pub proof fn lemma_split_pieces_concat(a: Seq<char>, c: char, b: Seq<char>)
    ensures
        split_pieces(a + seq![c] + b, c) == split_pieces(a, c) + split_pieces(b, c),
    decreases a.len(),
{
    if !a.contains(c) {
        lemma_split_pieces_cons(a, c, b);
        lemma_split_pieces_single(a, c);
    } else {
        lemma_first_index_from(a, c, 0);
        let k = choose|k: int| 0 <= k < a.len() && a[k] == c;
        assert(first_index_from(a, c, 0) is Some);
        let f = first_index_from(a, c, 0)->0;
        let a1 = a.take(f);
        let a2 = a.skip(f + 1);
        assert(!a1.contains(c)) by {
            assert forall|j: int| 0 <= j < a1.len() implies a1[j] != c by {
                assert(a1[j] == a[j]);
            }
        }
        assert(a =~= a1 + seq![c] + a2);
        lemma_split_pieces_cons(a1, c, a2);
        assert(a + seq![c] + b =~= a1 + seq![c] + (a2 + seq![c] + b));
        lemma_split_pieces_cons(a1, c, a2 + seq![c] + b);
        lemma_split_pieces_concat(a2, c, b);
        assert(split_pieces(a + seq![c] + b, c) =~= split_pieces(a, c) + split_pieces(b, c));
    }
}

/// The empty text is one empty piece.
pub proof fn lemma_split_pieces_empty(c: char)
    ensures
        split_pieces(Seq::<char>::empty(), c) == seq![Seq::<char>::empty()],
{
    assert(Seq::<char>::empty().subrange(0, 0) =~= Seq::<char>::empty());
}

/// Index of the first `c` in `s`.
pub fn find_char(s: &[char], c: char) -> (r: Option<usize>)
    ensures
        r matches Some(k) ==> first_index(s@, c) == Some(k as int),
        r is None ==> first_index(s@, c) is None,
{
    let mut i: usize = 0;
    while i < s.len()
        invariant
            i <= s@.len(),
            first_index(s@, c) == first_index_from(s@, c, i as int),
        decreases s.len() - i,
    {
        if s[i] == c {
            return Some(i);
        }
        i = i + 1;
    }
    None
}

/// A copy of `s[from..to]`.
pub fn copy_range(s: &[char], from: usize, to: usize) -> (r: Vec<char>)
    requires
        from <= to <= s@.len(),
    ensures
        r@ == s@.subrange(from as int, to as int),
{
    let mut out: Vec<char> = Vec::new();
    let mut k: usize = from;
    while k < to
        invariant
            from <= k <= to <= s@.len(),
            out@ =~= s@.subrange(from as int, k as int),
        decreases to - k,
    {
        out.push(s[k]);
        k = k + 1;
    }
    out
}

/// `str::split_once(c)` on a character slice.
pub fn split_once_char(s: &[char], c: char) -> (r: Option<(Vec<char>, Vec<char>)>)
    ensures
        r matches Some(p) ==> split_first(s@, c) == Some((p.0@, p.1@)),
        r is None ==> split_first(s@, c) is None,
{
    match find_char(s, c) {
        Some(k) => {
            proof {
                lemma_first_index_from(s@, c, 0);
            }
            let n = s.len();
            assert(k < n);
            let a = copy_range(s, 0, k);
            let b = copy_range(s, k + 1, n);
            assert(a@ =~= s@.take(k as int));
            assert(b@ =~= s@.skip(k + 1));
            Some((a, b))
        },
        None => None,
    }
}

/// The part of `s` before the first `c`, or all of `s`.
pub fn before_char(s: &[char], c: char) -> (r: Vec<char>)
    ensures
        r@ == before_first(s@, c),
{
    match find_char(s, c) {
        Some(k) => {
            proof {
                lemma_first_index_from(s@, c, 0);
            }
            let a = copy_range(s, 0, k);
            assert(a@ =~= s@.take(k as int));
            a
        },
        None => copy_range(s, 0, s.len()),
    }
}

/// The character sequences held by a vector of character vectors.
pub open spec fn char_vecs(v: Seq<Vec<char>>) -> Seq<Seq<char>> {
    v.map_values(|x: Vec<char>| x@)
}

/// `str::split(c)` on a character slice.
pub fn split_char(s: &[char], c: char) -> (r: Vec<Vec<char>>)
    ensures
        char_vecs(r@) == split_pieces(s@, c),
{
    let n = s.len();
    let mut out: Vec<Vec<char>> = Vec::new();
    let mut start: usize = 0;
    let mut i: usize = 0;
    while i < n
        invariant
            start <= i <= n == s@.len(),
            char_vecs(out@) + pieces_from(s@, c, start as int, i as int) == split_pieces(s@, c),
        decreases n - i,
    {
        if s[i] == c {
            let piece = copy_range(s, start, i);
            let ghost before = char_vecs(out@);
            out.push(piece);
            assert(char_vecs(out@) =~= before.push(piece@));
            assert(before + pieces_from(s@, c, start as int, i as int) =~= char_vecs(out@)
                + pieces_from(s@, c, i + 1, i + 1));
            start = i + 1;
        }
        i = i + 1;
    }
    let piece = copy_range(s, start, n);
    let ghost before = char_vecs(out@);
    out.push(piece);
    assert(char_vecs(out@) =~= before.push(piece@));
    assert(char_vecs(out@) =~= before + pieces_from(s@, c, start as int, i as int));
    out
}

/// `a` followed by `b`.
pub fn concat_chars(a: &[char], b: &[char]) -> (r: Vec<char>)
    ensures
        r@ == a@ + b@,
{
    let mut out = copy_range(a, 0, a.len());
    let mut i: usize = 0;
    assert(a@.subrange(0, a@.len() as int) =~= a@);
    while i < b.len()
        invariant
            i <= b@.len(),
            out@ == a@ + b@.take(i as int),
        decreases b.len() - i,
    {
        out.push(b[i]);
        assert(a@ + b@.take(i + 1) =~= (a@ + b@.take(i as int)).push(b@[i as int]));
        i = i + 1;
    }
    assert(b@.take(b@.len() as int) =~= b@);
    out
}

/// Whether two character slices hold the same characters.
pub fn chars_eq(a: &[char], b: &[char]) -> (r: bool)
    ensures
        r == (a@ == b@),
{
    if a.len() != b.len() {
        return false;
    }
    let mut i: usize = 0;
    while i < a.len()
        invariant
            i <= a@.len() == b@.len(),
            forall|j: int| 0 <= j < i ==> a@[j] == b@[j],
        decreases a.len() - i,
    {
        if a[i] != b[i] {
            return false;
        }
        i = i + 1;
    }
    assert(a@ =~= b@);
    true
}

/// Whether the characters of `a` spell the string `b`.
pub fn chars_eq_str(a: &[char], b: &str) -> (r: bool)
    ensures
        r == (a@ == b@),
{
    let bv = chars_of(b);
    chars_eq(a, &bv)
}

/// Whether `s` begins with `c` (`str::starts_with(c)`).
pub fn starts_with_char(s: &[char], c: char) -> (r: bool)
    ensures
        r == (s@.len() > 0 && s@[0] == c),
{
    s.len() > 0 && s[0] == c
}

} // verus!
