//! How often each application was launched, and the text form in which it is kept.
use vstd::prelude::*;

use crate::text::{
    char_vecs, chars_eq, chars_of, concat_chars, first_index, is_white_space, lemma_first_index_at,
    lemma_split_pieces_cons, lemma_split_pieces_empty, lemma_trimmed_id, split_char, split_first,
    split_once_char, split_pieces, string_from_chars, trim, trimmed,
};

verus! {

// ---------------------------------------------------------------------------
// Decimal numbers
// ---------------------------------------------------------------------------

pub open spec fn is_digit(c: char) -> bool {
    '0' <= c && c <= '9'
}

pub open spec fn digit_value(c: char) -> int {
    (c as u32) - ('0' as u32)
}

pub open spec fn digit_char(d: int) -> char {
    if d == 0 {
        '0'
    } else if d == 1 {
        '1'
    } else if d == 2 {
        '2'
    } else if d == 3 {
        '3'
    } else if d == 4 {
        '4'
    } else if d == 5 {
        '5'
    } else if d == 6 {
        '6'
    } else if d == 7 {
        '7'
    } else if d == 8 {
        '8'
    } else {
        '9'
    }
}

pub open spec fn all_digits(s: Seq<char>) -> bool {
    forall|i: int| 0 <= i < s.len() ==> is_digit(#[trigger] s[i])
}

/// The number that the decimal digits `s` spell.
pub open spec fn digits_value(s: Seq<char>) -> int
    decreases s.len(),
{
    if s.len() == 0 {
        0
    } else {
        digits_value(s.drop_last()) * 10 + digit_value(s.last())
    }
}

/// What `u32::from_str` gives: an optional `+` and at least one decimal
/// digit, of value at most `u32::MAX`.
pub open spec fn parse_u32_spec(s: Seq<char>) -> Option<u32> {
    let d = unsigned_part(s);
    if d.len() > 0 && all_digits(d) && digits_value(d) <= u32::MAX {
        Some(digits_value(d) as u32)
    } else {
        None
    }
}

/// `s` without one leading `+`.
pub open spec fn unsigned_part(s: Seq<char>) -> Seq<char> {
    if s.len() > 0 && s[0] == '+' {
        s.drop_first()
    } else {
        s
    }
}

/// The decimal form of `n`, without leading zeros.
pub open spec fn decimal(n: nat) -> Seq<char>
    decreases n,
{
    if n < 10 {
        seq![digit_char(n as int)]
    } else {
        decimal(n / 10).push(digit_char((n % 10) as int))
    }
}

proof fn lemma_digits_value_nonneg(s: Seq<char>)
    requires
        all_digits(s),
    ensures
        0 <= digits_value(s),
    decreases s.len(),
{
    if s.len() > 0 {
        assert(is_digit(s[s.len() - 1]));
        lemma_digits_value_nonneg(s.drop_last());
    }
}

proof fn lemma_digits_value_prefix(s: Seq<char>, i: int, j: int)
    requires
        0 <= i <= j <= s.len(),
        all_digits(s),
    ensures
        digits_value(s.take(i)) <= digits_value(s.take(j)),
    decreases j - i,
{
    if i < j {
        lemma_digits_value_prefix(s, i, j - 1);
        assert(s.take(j).drop_last() =~= s.take(j - 1));
        assert(is_digit(s[j - 1]));
        lemma_digits_value_nonneg(s.take(j - 1));
    }
}

proof fn lemma_digit_char(k: int)
    requires
        0 <= k < 10,
    ensures
        is_digit(digit_char(k)),
        digit_value(digit_char(k)) == k,
{
}

/// `decimal(n)` is a string of digits that `u32::from_str` reads back as `n`.
pub proof fn lemma_decimal(n: nat)
    ensures
        decimal(n).len() > 0,
        all_digits(decimal(n)),
        digits_value(decimal(n)) == n,
    decreases n,
{
    if n < 10 {
        lemma_digit_char(n as int);
        assert(decimal(n).drop_last() =~= Seq::<char>::empty());
        assert(digits_value(decimal(n).drop_last()) == 0);
    } else {
        lemma_decimal(n / 10);
        lemma_digit_char((n % 10) as int);
        let d = decimal(n);
        assert(d.drop_last() =~= decimal(n / 10));
        assert(n == (n / 10) * 10 + n % 10) by (nonlinear_arith);
        assert forall|i: int| 0 <= i < d.len() implies is_digit(#[trigger] d[i]) by {
            if i < d.len() - 1 {
                assert(d[i] == decimal(n / 10)[i]);
            }
        }
    }
}

pub proof fn lemma_parse_decimal(n: u32)
    ensures
        parse_u32_spec(decimal(n as nat)) == Some(n),
{
    lemma_decimal(n as nat);
    assert(is_digit(decimal(n as nat)[0]));
}

fn digit_to_char(d: u32) -> (c: char)
    requires
        d < 10,
    ensures
        c == digit_char(d as int),
{
    if d == 0 {
        '0'
    } else if d == 1 {
        '1'
    } else if d == 2 {
        '2'
    } else if d == 3 {
        '3'
    } else if d == 4 {
        '4'
    } else if d == 5 {
        '5'
    } else if d == 6 {
        '6'
    } else if d == 7 {
        '7'
    } else if d == 8 {
        '8'
    } else {
        '9'
    }
}

/// Appends the decimal form of `n` (as `format!("{n}")` writes it).
fn push_decimal(n: u32, out: &mut Vec<char>)
    ensures
        final(out)@ == old(out)@ + decimal(n as nat),
    decreases n,
{
    if n >= 10 {
        push_decimal(n / 10, out);
    }
    let ghost mid = out@;
    out.push(digit_to_char(n % 10));
    proof {
        if n >= 10 {
            assert(out@ =~= old(out)@ + decimal(n as nat));
        } else {
            assert(out@ =~= old(out)@ + decimal(n as nat));
        }
    }
}

/// Reads a `u32` as `u32::from_str` does.
pub fn parse_u32(s: &[char]) -> (r: Option<u32>)
    ensures
        r == parse_u32_spec(s@),
{
    let n = s.len();
    let start: usize = if n > 0 && s[0] == '+' {
        1
    } else {
        0
    };
    let ghost d = unsigned_part(s@);
    assert(d =~= s@.skip(start as int));
    if start == n {
        return None;
    }
    let mut acc: u64 = 0;
    let mut i: usize = start;
    assert(d.take(0) =~= Seq::<char>::empty());
    while i < n
        invariant
            start <= i <= n == s@.len(),
            d == unsigned_part(s@),
            d =~= s@.skip(start as int),
            d.len() == n - start,
            acc == digits_value(d.take(i - start)),
            acc <= u32::MAX,
            forall|j: int| 0 <= j < i - start ==> is_digit(#[trigger] d[j]),
        decreases n - i,
    {
        let c = s[i];
        assert(d[i - start] == c);
        if !('0' <= c && c <= '9') {
            assert(!is_digit(d[i - start]));
            assert(!all_digits(d));
            return None;
        }
        let v = (c as u32) - ('0' as u32);
        assert(v == digit_value(c));
        assert(d.take(i - start + 1).drop_last() =~= d.take(i - start));
        assert(d.take(i - start + 1).last() == c);
        acc = acc * 10 + v as u64;
        assert(acc == digits_value(d.take(i - start + 1)));
        if acc > u32::MAX as u64 {
            proof {
                if all_digits(d) {
                    lemma_digits_value_prefix(d, i - start + 1, d.len() as int);
                    assert(d.take(d.len() as int) =~= d);
                }
            }
            return None;
        }
        i = i + 1;
    }
    assert(d.take(n - start) =~= d);
    Some(acc as u32)
}

// ---------------------------------------------------------------------------
// The history
// ---------------------------------------------------------------------------

/// Launch counts by application name.
pub struct EntryHistory {
    entries: Vec<(String, u32)>,
}

/// The map that the records give, later records overriding earlier ones.
pub open spec fn records_map(recs: Seq<(Seq<char>, u32)>) -> Map<Seq<char>, u32>
    decreases recs.len(),
{
    if recs.len() == 0 {
        Map::empty()
    } else {
        records_map(recs.drop_last()).insert(recs.last().0, recs.last().1)
    }
}

pub open spec fn distinct_names(recs: Seq<(Seq<char>, u32)>) -> bool {
    forall|i: int, j: int|
        0 <= i < recs.len() && 0 <= j < recs.len() && i != j ==> recs[i].0 != recs[j].0
}

/// A name's launch count: 0 for a name never launched (`history[name]`).
pub open spec fn usage_of(m: Map<Seq<char>, u32>, name: Seq<char>) -> u32 {
    if m.dom().contains(name) {
        m[name]
    } else {
        0
    }
}

/// One line of the history's text: `count name`.
pub open spec fn record_line(r: (Seq<char>, u32)) -> Seq<char> {
    decimal(r.1 as nat) + seq![' '] + r.0
}

/// The history's text: one `count name` line per record, each ending in `\n`.
pub open spec fn render(recs: Seq<(Seq<char>, u32)>) -> Seq<char>
    decreases recs.len(),
{
    if recs.len() == 0 {
        Seq::empty()
    } else {
        record_line(recs[0]) + seq!['\n'] + render(recs.drop_first())
    }
}

/// The map after one line of history text: a line `count name` (trimmed, split
/// at its first space) sets the count of the trimmed name; other lines change
/// nothing.
pub open spec fn apply_history_line(m: Map<Seq<char>, u32>, raw: Seq<char>) -> Map<Seq<char>, u32> {
    let line = trimmed(raw);
    if line.len() == 0 {
        m
    } else {
        match split_first(line, ' ') {
            Some((num, name)) => match parse_u32_spec(num) {
                Some(n) => m.insert(trimmed(name), n),
                None => m,
            },
            None => m,
        }
    }
}

pub open spec fn apply_history_lines(lines: Seq<Seq<char>>, i: int, m: Map<Seq<char>, u32>) -> Map<
    Seq<char>,
    u32,
>
    decreases lines.len() - i,
{
    if i < 0 || i >= lines.len() {
        m
    } else {
        apply_history_lines(lines, i + 1, apply_history_line(m, lines[i]))
    }
}

/// The counts that the history text `content` holds.
pub open spec fn history_of(content: Seq<char>) -> Map<Seq<char>, u32> {
    apply_history_lines(split_pieces(content, '\n'), 0, Map::empty())
}

/// A name that the history text keeps exactly: not empty, not beginning or
/// ending with white space, and without line breaks.
pub open spec fn storable_name(name: Seq<char>) -> bool {
    &&& name.len() > 0
    &&& !is_white_space(name[0])
    &&& !is_white_space(name.last())
    &&& !name.contains('\n')
}

proof fn lemma_records_map_update(recs: Seq<(Seq<char>, u32)>, k: int, v: u32)
    requires
        0 <= k < recs.len(),
        distinct_names(recs),
    ensures
        records_map(recs.update(k, (recs[k].0, v))) == records_map(recs).insert(recs[k].0, v),
    decreases recs.len(),
{
    let u = recs.update(k, (recs[k].0, v));
    if k == recs.len() - 1 {
        assert(u.drop_last() =~= recs.drop_last());
        assert(records_map(u) =~= records_map(recs).insert(recs[k].0, v));
    } else {
        lemma_records_map_update(recs.drop_last(), k, v);
        assert(u.drop_last() =~= recs.drop_last().update(k, (recs[k].0, v)));
        assert(recs.last().0 != recs[k].0);
        assert(records_map(u) =~= records_map(recs).insert(recs[k].0, v));
    }
}

proof fn lemma_records_map_absent(recs: Seq<(Seq<char>, u32)>, name: Seq<char>)
    requires
        forall|i: int| 0 <= i < recs.len() ==> recs[i].0 != name,
    ensures
        !records_map(recs).dom().contains(name),
    decreases recs.len(),
{
    if recs.len() > 0 {
        lemma_records_map_absent(recs.drop_last(), name);
    }
}

proof fn lemma_records_map_get(recs: Seq<(Seq<char>, u32)>, k: int)
    requires
        0 <= k < recs.len(),
        distinct_names(recs),
    ensures
        records_map(recs).dom().contains(recs[k].0),
        records_map(recs)[recs[k].0] == recs[k].1,
    decreases recs.len(),
{
    if k < recs.len() - 1 {
        lemma_records_map_get(recs.drop_last(), k);
    }
}

/// The lines of a history text: one per record, then the empty piece after
/// the last line break.
pub open spec fn rendered_lines(recs: Seq<(Seq<char>, u32)>) -> Seq<Seq<char>> {
    recs.map_values(|r: (Seq<char>, u32)| record_line(r)) + seq![Seq::<char>::empty()]
}

proof fn lemma_decimal_plain(n: nat)
    ensures
        forall|i: int| 0 <= i < decimal(n).len() ==> {
            &&& decimal(n)[i] != ' '
            &&& decimal(n)[i] != '\n'
            &&& !is_white_space(decimal(n)[i])
        },
{
    lemma_decimal(n);
    assert forall|i: int| 0 <= i < decimal(n).len() implies {
        &&& decimal(n)[i] != ' '
        &&& decimal(n)[i] != '\n'
        &&& !is_white_space(decimal(n)[i])
    } by {
        assert(is_digit(decimal(n)[i]));
    }
}

proof fn lemma_split_render(recs: Seq<(Seq<char>, u32)>)
    requires
        forall|i: int| 0 <= i < recs.len() ==> storable_name(#[trigger] recs[i].0),
    ensures
        split_pieces(render(recs), '\n') == rendered_lines(recs),
    decreases recs.len(),
{
    if recs.len() == 0 {
        lemma_split_pieces_empty('\n');
        assert(rendered_lines(recs) =~= seq![Seq::<char>::empty()]);
    } else {
        let rest = recs.drop_first();
        assert forall|i: int| 0 <= i < rest.len() implies storable_name(#[trigger] rest[i].0) by {
            assert(rest[i] == recs[i + 1]);
        }
        lemma_split_render(rest);
        let line = record_line(recs[0]);
        assert(storable_name(recs[0].0));
        lemma_decimal_plain(recs[0].1 as nat);
        let d = decimal(recs[0].1 as nat);
        assert(!line.contains('\n')) by {
            assert forall|k: int| 0 <= k < line.len() implies line[k] != '\n' by {
                if k < d.len() {
                    assert(line[k] == d[k]);
                } else if k > d.len() {
                    assert(line[k] == recs[0].0[k - d.len() - 1]);
                }
            }
        }
        lemma_split_pieces_cons(line, '\n', render(rest));
        assert(rendered_lines(recs) =~= seq![line] + rendered_lines(rest));
    }
}

/// A record's line adds its name and count to the map.
proof fn lemma_apply_record_line(m: Map<Seq<char>, u32>, name: Seq<char>, n: u32)
    requires
        storable_name(name),
    ensures
        apply_history_line(m, record_line((name, n))) == m.insert(name, n),
{
    let d = decimal(n as nat);
    let line = record_line((name, n));
    lemma_decimal(n as nat);
    lemma_decimal_plain(n as nat);
    assert(line[0] == d[0]);
    assert(line.last() == name.last());
    lemma_trimmed_id(line);
    assert(line[d.len() as int] == ' ');
    assert forall|j: int| 0 <= j < d.len() implies line[j] != ' ' by {
        assert(line[j] == d[j]);
    }
    lemma_first_index_at(line, ' ', 0, d.len() as int);
    assert(line.take(d.len() as int) =~= d);
    assert(line.skip(d.len() as int + 1) =~= name);
    lemma_parse_decimal(n);
    lemma_trimmed_id(name);
}

proof fn lemma_apply_rendered_lines(recs: Seq<(Seq<char>, u32)>, i: int)
    requires
        0 <= i <= recs.len(),
        forall|k: int| 0 <= k < recs.len() ==> storable_name(#[trigger] recs[k].0),
    ensures
        apply_history_lines(rendered_lines(recs), i, records_map(recs.take(i))) == records_map(recs),
    decreases recs.len() - i,
{
    let lines = rendered_lines(recs);
    assert(lines.len() == recs.len() + 1);
    if i == recs.len() {
        assert(lines[i] =~= Seq::<char>::empty());
        assert(recs.take(i) =~= recs);
        let m = records_map(recs);
        assert(trimmed(lines[i]).len() == 0);
        assert(apply_history_line(m, lines[i]) == m);
        assert(apply_history_lines(lines, i + 1, m) == m);
    } else {
        assert(lines[i] == record_line(recs[i]));
        assert(storable_name(recs[i].0));
        lemma_apply_record_line(records_map(recs.take(i)), recs[i].0, recs[i].1);
        assert(recs.take(i + 1).drop_last() =~= recs.take(i));
        assert(recs.take(i + 1).last() == recs[i]);
        lemma_apply_rendered_lines(recs, i + 1);
    }
}

/// Reading back the text of records whose names are storable gives the
/// records' map.
pub proof fn lemma_render_round_trip(recs: Seq<(Seq<char>, u32)>)
    requires
        forall|k: int| 0 <= k < recs.len() ==> storable_name(#[trigger] recs[k].0),
    ensures
        history_of(render(recs)) == records_map(recs),
{
    lemma_split_render(recs);
    lemma_apply_rendered_lines(recs, 0);
    assert(recs.take(0) =~= Seq::<(Seq<char>, u32)>::empty());
}

impl View for EntryHistory {
    type V = Map<Seq<char>, u32>;

    open spec fn view(&self) -> Map<Seq<char>, u32> {
        records_map(self.records())
    }
}

impl EntryHistory {
    /// The records, in the order in which the text form lists them.
    pub closed spec fn records(&self) -> Seq<(Seq<char>, u32)> {
        self.entries@.map_values(|r: (String, u32)| (r.0@, r.1))
    }

    /// No name is recorded twice.
    pub open spec fn wf(&self) -> bool {
        distinct_names(self.records())
    }

    fn find(&self, name: &[char]) -> (r: Option<usize>)
        ensures
            r matches Some(k) ==> k < self.records().len() && self.records()[k as int].0 == name@,
            r is None ==> forall|i: int|
                0 <= i < self.records().len() ==> self.records()[i].0 != name@,
    {
        let mut i: usize = 0;
        while i < self.entries.len()
            invariant
                i <= self.entries@.len(),
                forall|j: int| 0 <= j < i ==> self.records()[j].0 != name@,
            decreases self.entries.len() - i,
        {
            let stored = chars_of(self.entries[i].0.as_str());
            assert(self.records()[i as int].0 == self.entries@[i as int].0@);
            if chars_eq(&stored, name) {
                return Some(i);
            }
            i = i + 1;
        }
        None
    }

    /// Where the history is kept: `$XDG_CACHE_HOME/kedesktop/kelaunch`, with
    /// `$HOME/.cache` in place of an unset `$XDG_CACHE_HOME`.
    pub fn file_path(home: &str, cache_home: Option<String>) -> (r: String)
        ensures
            r@ == match cache_home {
                Some(c) => c@,
                None => home@ + "/.cache"@,
            } + "/kedesktop/kelaunch"@,
    {
        let base = match cache_home {
            Some(c) => chars_of(c.as_str()),
            None => concat_chars(&chars_of(home), &chars_of("/.cache")),
        };
        string_from_chars(&concat_chars(&base, &chars_of("/kedesktop/kelaunch")))
    }

    /// The launch count of `name`; 0 for a name never launched.
    pub fn usage(&self, name: &str) -> (r: u32)
        requires
            self.wf(),
        ensures
            r == usage_of(self@, name@),
    {
        let n = chars_of(name);
        match self.find(&n) {
            Some(k) => {
                proof {
                    lemma_records_map_get(self.records(), k as int);
                }
                self.entries[k].1
            },
            None => {
                proof {
                    lemma_records_map_absent(self.records(), name@);
                }
                0
            },
        }
    }

    /// Sets the count of `name` to `n`.
    fn set_usage(&mut self, name: &[char], n: u32)
        requires
            old(self).wf(),
        ensures
            final(self).wf(),
            final(self)@ == old(self)@.insert(name@, n),
    {
        match self.find(name) {
            Some(k) => {
                let ghost recs = self.records();
                self.entries[k].1 = n;
                assert(self.records() =~= recs.update(k as int, (recs[k as int].0, n)));
                proof {
                    lemma_records_map_update(recs, k as int, n);
                }
            },
            None => {
                let ghost recs = self.records();
                self.entries.push((string_from_chars(name), n));
                assert(self.records() =~= recs.push((name@, n)));
                assert(self.records().drop_last() =~= recs);
            },
        }
    }

    /// Counts one more launch of `name` (`history[name] += 1`); the count must
    /// not already be `u32::MAX`.
    pub fn increment(&mut self, name: &str)
        requires
            old(self).wf(),
            usage_of(old(self)@, name@) < u32::MAX,
        ensures
            final(self).wf(),
            final(self)@ == old(self)@.insert(name@, (usage_of(old(self)@, name@) + 1) as u32),
    {
        let count = self.usage(name);
        let n = chars_of(name);
        self.set_usage(&n, count + 1);
    }

    /// Reads the history's text: each line `count name` sets the count of
    /// `name`; blank and malformed lines are skipped.
    pub fn parse(content: &str) -> (r: EntryHistory)
        ensures
            r.wf(),
            r@ == history_of(content@),
    {
        let chars = chars_of(content);
        let lines = split_char(&chars, '\n');
        let ghost all = split_pieces(content@, '\n');
        let mut h = EntryHistory { entries: Vec::new() };
        assert(h.records() =~= Seq::<(Seq<char>, u32)>::empty());
        assert(h@ =~= Map::<Seq<char>, u32>::empty());
        let mut i: usize = 0;
        while i < lines.len()
            invariant
                i <= lines@.len(),
                char_vecs(lines@) == all,
                all == split_pieces(content@, '\n'),
                h.wf(),
                history_of(content@) == apply_history_lines(all, i as int, h@),
            decreases lines.len() - i,
        {
            assert(char_vecs(lines@)[i as int] == lines@[i as int]@);
            let line = trim(&lines[i]);
            if line.len() > 0 {
                if let Some((num, name)) = split_once_char(&line, ' ') {
                    if let Some(n) = parse_u32(&num) {
                        let name = trim(&name);
                        h.set_usage(&name, n);
                    }
                }
            }
            i = i + 1;
        }
        h
    }

    /// The history text round trip: reading back what `to_text` writes gives
    /// the same launch counts, for a history whose names are not empty, do not
    /// begin or end with white space and hold no line break (the names that
    /// `parse` can produce).
    pub proof fn lemma_text_round_trip(&self)
        requires
            self.wf(),
            forall|name: Seq<char>| self@.dom().contains(name) ==> storable_name(name),
        ensures
            history_of(render(self.records())) == self@,
    {
        let recs = self.records();
        assert forall|k: int| 0 <= k < recs.len() implies storable_name(#[trigger] recs[k].0) by {
            lemma_records_map_get(recs, k);
        }
        lemma_render_round_trip(recs);
    }

    /// The history's text, to be written to the history file: one line
    /// `count name` per record.
    pub fn to_text(&self) -> (r: String)
        ensures
            r@ == render(self.records()),
    {
        let ghost recs = self.records();
        let mut out: Vec<char> = Vec::new();
        let mut i: usize = 0;
        assert(recs.skip(0) =~= recs);
        while i < self.entries.len()
            invariant
                i <= self.entries@.len() == recs.len(),
                recs == self.records(),
                out@ + render(recs.skip(i as int)) == render(recs),
            decreases self.entries.len() - i,
        {
            let ghost before = out@;
            push_decimal(self.entries[i].1, &mut out);
            out.push(' ');
            let name = chars_of(self.entries[i].0.as_str());
            let mut k: usize = 0;
            let ghost mid = out@;
            while k < name.len()
                invariant
                    k <= name@.len(),
                    out@ =~= mid + name@.take(k as int),
                decreases name.len() - k,
            {
                out.push(name[k]);
                k = k + 1;
            }
            out.push('\n');
            assert(recs[i as int] == (self.entries@[i as int].0@, self.entries@[i as int].1));
            assert(recs.skip(i as int).drop_first() =~= recs.skip(i + 1));
            assert(name@.take(name@.len() as int) =~= name@);
            assert(out@ =~= before + (record_line(recs[i as int]) + seq!['\n']));
            i = i + 1;
        }
        assert(recs.skip(i as int) =~= Seq::<(Seq<char>, u32)>::empty());
        assert(out@ + Seq::<char>::empty() =~= out@);
        string_from_chars(&out)
    }
}

} // verus!
