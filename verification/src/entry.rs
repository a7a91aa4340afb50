//! Desktop entries (`.desktop` files) and their parser.
use vstd::prelude::*;

use crate::locale::Locale;
use crate::text::{
    char_vecs, chars_eq_str, chars_of, concat_chars, copy_range, find_char, first_index, is_white_space,
    is_whitespace, lemma_first_index_from, lemma_split_pieces_concat, lemma_split_pieces_cons, split_char, split_first, split_once_char, split_pieces,
    starts_with_char, string_from_chars, stripped, stripped_end, stripped_start, trim, trim_char, trimmed, trimmed_start,
};

verus! {

/// An application entry read from a `.desktop` file.
pub struct Entry {
    name: String,
    localized_name: Option<String>,
    keywords: Vec<String>,
    exec_line: String,
    terminal: bool,
}

/// The contents of an `Entry`.
pub struct EntryView {
    pub name: Seq<char>,
    pub localized_name: Option<Seq<char>>,
    pub keywords: Seq<Seq<char>>,
    pub exec_line: Seq<char>,
    pub terminal: bool,
}

/// The character sequences held by a sequence of strings.
pub open spec fn string_views(v: Seq<String>) -> Seq<Seq<char>> {
    v.map_values(|s: String| s@)
}

pub open spec fn opt_view(o: Option<String>) -> Option<Seq<char>> {
    match o {
        Some(s) => Some(s@),
        None => None,
    }
}

impl View for Entry {
    type V = EntryView;

    closed spec fn view(&self) -> EntryView {
        EntryView {
            name: self.name@,
            localized_name: opt_view(self.localized_name),
            keywords: string_views(self.keywords@),
            exec_line: self.exec_line@,
            terminal: self.terminal,
        }
    }
}

impl Entry {
    /// The entry's `Name`.
    pub fn get_name(&self) -> (r: &str)
        ensures
            r@ == self@.name,
    {
        self.name.as_str()
    }

    /// The name shown to the user and matched by searches. Localized names
    /// are read and kept, but this build shows the plain `Name`.
    pub fn get_localized_name(&self) -> (r: &str)
        ensures
            r@ == self@.name,
    {
        self.get_name()
    }

    /// The entry's keywords.
    pub fn get_keywords(&self) -> (r: &[String])
        ensures
            string_views(r@) == self@.keywords,
    {
        self.keywords.as_slice()
    }

    /// The command line to run, with field codes removed.
    pub fn get_exec(&self) -> (r: &str)
        ensures
            r@ == self@.exec_line,
    {
        self.exec_line.as_str()
    }

    /// Whether the application runs in a terminal.
    pub fn is_terminal(&self) -> (r: bool)
        ensures
            r == self@.terminal,
    {
        self.terminal
    }
}

// ---------------------------------------------------------------------------
// Field codes, keywords, localized keys, commands
// ---------------------------------------------------------------------------

/// The field codes of the Desktop Entry specification that a launcher drops.
pub open spec fn is_field_code(c: char) -> bool {
    c == 'f' || c == 'F' || c == 'u' || c == 'U' || c == 'd' || c == 'D' || c == 'n' || c == 'N'
        || c == 'i' || c == 'c' || c == 'k' || c == 'v' || c == 'm'
}

/// `s` with each field code `%x` removed and each `%%` turned into `%`; a `%`
/// followed by anything else is kept.
pub open spec fn without_field_codes(s: Seq<char>) -> Seq<char>
    decreases s.len(),
{
    if s.len() == 0 {
        Seq::empty()
    } else if s[0] != '%' {
        seq![s[0]] + without_field_codes(s.drop_first())
    } else if s.len() >= 2 && is_field_code(s[1]) {
        without_field_codes(s.skip(2))
    } else if s.len() >= 2 && s[1] == '%' {
        seq!['%'] + without_field_codes(s.skip(2))
    } else {
        seq!['%'] + without_field_codes(s.drop_first())
    }
}

/// Removes the field codes from an `Exec` value.
pub fn strip_field_codes(s: &[char]) -> (r: Vec<char>)
    ensures
        r@ == without_field_codes(s@),
{
    let n = s.len();
    let mut out: Vec<char> = Vec::new();
    let mut i: usize = 0;
    assert(s@.skip(0) =~= s@);
    while i < n
        invariant
            i <= n == s@.len(),
            out@ + without_field_codes(s@.skip(i as int)) == without_field_codes(s@),
        decreases n - i,
    {
        let ghost rest = s@.skip(i as int);
        let c = s[i];
        assert(rest[0] == c);
        assert(rest.drop_first() =~= s@.skip(i + 1));
        if c != '%' {
            out.push(c);
            i = i + 1;
        } else if i + 1 < n && is_field_code_char(s[i + 1]) {
            assert(rest[1] == s@[i + 1]);
            assert(rest.skip(2) =~= s@.skip(i + 2));
            i = i + 2;
        } else if i + 1 < n && s[i + 1] == '%' {
            assert(rest[1] == s@[i + 1]);
            assert(rest.skip(2) =~= s@.skip(i + 2));
            out.push('%');
            i = i + 2;
        } else {
            proof {
                if i + 1 < n {
                    assert(rest[1] == s@[i + 1]);
                }
            }
            out.push('%');
            i = i + 1;
        }
    }
    assert(s@.skip(n as int) =~= Seq::<char>::empty());
    assert(out@ + Seq::<char>::empty() =~= out@);
    out
}

fn is_field_code_char(c: char) -> (r: bool)
    ensures
        r == is_field_code(c),
{
    c == 'f' || c == 'F' || c == 'u' || c == 'U' || c == 'd' || c == 'D' || c == 'n' || c == 'N'
        || c == 'i' || c == 'c' || c == 'k' || c == 'v' || c == 'm'
}

/// The keywords of a `Keywords` value: its `;`-separated pieces, trimmed
/// (a trailing `;` gives a last, empty keyword).
pub open spec fn keyword_list(value: Seq<char>) -> Seq<Seq<char>> {
    trimmed_all(split_pieces(value, ';'))
}

/// Each of `pieces`, trimmed.
pub open spec fn trimmed_all(pieces: Seq<Seq<char>>) -> Seq<Seq<char>> {
    pieces.map_values(|p: Seq<char>| trimmed(p))
}

/// Splits a `Keywords` value into its keywords.
pub fn parse_keywords(value: &[char]) -> (r: Vec<String>)
    ensures
        string_views(r@) == keyword_list(value@),
{
    let pieces = split_char(value, ';');
    let ghost all = split_pieces(value@, ';');
    let mut out: Vec<String> = Vec::new();
    let mut i: usize = 0;
    while i < pieces.len()
        invariant
            i <= pieces@.len(),
            char_vecs(pieces@) == all,
            all == split_pieces(value@, ';'),
            string_views(out@) =~= trimmed_all(all.take(i as int)),
        decreases pieces.len() - i,
    {
        let t = trim(&pieces[i]);
        let s = string_from_chars(&t);
        let ghost prev = out@;
        out.push(s);
        assert(char_vecs(pieces@)[i as int] == pieces@[i as int]@);
        assert(string_views(out@) =~= string_views(prev).push(s@));
        assert(trimmed_all(all.take(i + 1)) =~= trimmed_all(all.take(i as int)).push(
            trimmed(all[i as int]),
        ));
        i = i + 1;
    }
    assert(all.take(pieces@.len() as int) =~= all);
    out
}

/// The base key and the locale tag of a localized key `Base[tag]`.
pub open spec fn localized_key_parts(key: Seq<char>) -> Option<(Seq<char>, Seq<char>)> {
    match first_index(key, '[') {
        Some(b) => {
            let rest = key.skip(b + 1);
            if rest.len() > 0 && rest.last() == ']' {
                Some((key.take(b), rest.drop_last()))
            } else {
                None
            }
        },
        None => None,
    }
}

/// Splits `"Name[fr_FR]"` into `("Name", "fr_FR")`.
pub fn parse_localized_key(key: &[char]) -> (r: Option<(Vec<char>, Vec<char>)>)
    ensures
        r matches Some(p) ==> localized_key_parts(key@) == Some((p.0@, p.1@)),
        r is None ==> localized_key_parts(key@) is None,
{
    let n = key.len();
    match find_char(key, '[') {
        Some(b) => {
            proof {
                lemma_first_index_from(key@, '[', 0);
            }
            assert(b < n);
            if n > b + 1 && key[n - 1] == ']' {
                let base = copy_range(key, 0, b);
                let tag = copy_range(key, b + 1, n - 1);
                assert(base@ =~= key@.take(b as int));
                assert(tag@ =~= key@.skip(b + 1).drop_last());
                Some((base, tag))
            } else {
                None
            }
        },
        None => None,
    }
}

/// The index of the first white space in `s` at or after `i`, or `s.len()`.
pub open spec fn space_index_from(s: Seq<char>, i: int) -> int
    decreases s.len() - i,
{
    if i < 0 || i >= s.len() {
        s.len() as int
    } else if is_white_space(s[i]) {
        i
    } else {
        space_index_from(s, i + 1)
    }
}

/// The command of a command line: its first white-space-separated word, if
/// it has one (`str::split_whitespace().next()`).
pub open spec fn command_of(exec_line: Seq<char>) -> Option<Seq<char>> {
    let t = trimmed_start(exec_line);
    if t.len() == 0 {
        None
    } else {
        Some(t.take(space_index_from(t, 0)))
    }
}

/// The command of a command line, which the launcher looks up on disk; `None`
/// where the line holds nothing but white space.
pub fn exec_command(exec_line: &str) -> (r: Option<String>)
    ensures
        r matches Some(c) ==> command_of(exec_line@) == Some(c@),
        r is None ==> command_of(exec_line@) is None,
{
    let s = chars_of(exec_line);
    match command_chars(&s) {
        Some(c) => Some(string_from_chars(&c)),
        None => None,
    }
}

/// The path that `Path::new(dir).join(name)` gives on Unix, as text: an
/// absolute `name` replaces `dir`; otherwise `name` follows `dir`, with a `/`
/// between them unless `dir` is empty or already ends in one.
pub open spec fn joined_path(dir: Seq<char>, name: Seq<char>) -> Seq<char> {
    if name.len() > 0 && name[0] == '/' {
        name
    } else if dir.len() == 0 || dir.last() == '/' {
        dir + name
    } else {
        dir + seq!['/'] + name
    }
}

/// `Path::new(dir).join(name)` on Unix, as text.
fn join_path(dir: &str, name: &str) -> (r: String)
    ensures
        r@ == joined_path(dir@, name@),
{
    let d = chars_of(dir);
    let n = chars_of(name);
    if starts_with_char(&n, '/') {
        return string_from_chars(&n);
    }
    if d.len() == 0 || d[d.len() - 1] == '/' {
        string_from_chars(&concat_chars(&d, &n))
    } else {
        let mut with_sep = copy_range(&d, 0, d.len());
        with_sep.push('/');
        assert(with_sep@ =~= d@ + seq!['/']);
        string_from_chars(&concat_chars(&with_sep, &n))
    }
}

/// The files where a command may be found: the command itself when it is an
/// absolute path, otherwise the command in each `:`-separated directory of
/// `path_var` (the value of `$PATH`), in order.
pub fn exec_candidates(command: &str, path_var: &str) -> (r: Vec<String>)
    ensures
        command@.len() > 0 && command@[0] == '/' ==> string_views(r@) == seq![command@],
        !(command@.len() > 0 && command@[0] == '/') ==> string_views(r@) == split_pieces(
            path_var@,
            ':',
        ).map_values(|d: Seq<char>| joined_path(d, command@)),
{
    let c = chars_of(command);
    let mut out: Vec<String> = Vec::new();
    if starts_with_char(&c, '/') {
        out.push(string_from_chars(&c));
        assert(string_views(out@) =~= seq![command@]);
        return out;
    }
    let dirs = split_char(&chars_of(path_var), ':');
    let ghost all = split_pieces(path_var@, ':');
    let mut i: usize = 0;
    while i < dirs.len()
        invariant
            i <= dirs@.len(),
            char_vecs(dirs@) == all,
            string_views(out@) =~= all.take(i as int).map_values(
                |d: Seq<char>| joined_path(d, command@),
            ),
        decreases dirs.len() - i,
    {
        let dir = string_from_chars(&dirs[i]);
        assert(char_vecs(dirs@)[i as int] == dirs@[i as int]@);
        let p = join_path(dir.as_str(), command);
        let ghost prev = out@;
        out.push(p);
        assert(string_views(out@) =~= string_views(prev).push(p@));
        assert(all.take(i + 1).map_values(|d: Seq<char>| joined_path(d, command@))
            =~= all.take(i as int).map_values(|d: Seq<char>| joined_path(d, command@)).push(
            joined_path(all[i as int], command@),
        ));
        i = i + 1;
    }
    assert(all.take(dirs@.len() as int) =~= all);
    out
}

fn command_chars(s: &[char]) -> (r: Option<Vec<char>>)
    ensures
        r matches Some(c) ==> command_of(s@) == Some(c@),
        r is None ==> command_of(s@) is None,
{
    let n = s.len();
    let mut i: usize = 0;
    assert(s@.subrange(0, n as int) =~= s@);
    while i < n && is_whitespace(s[i])
        invariant
            i <= n == s@.len(),
            trimmed_start(s@) == trimmed_start(s@.subrange(i as int, n as int)),
        decreases n - i,
    {
        assert(s@.subrange(i as int, n as int).drop_first() =~= s@.subrange(i + 1, n as int));
        i = i + 1;
    }
    let ghost t = s@.subrange(i as int, n as int);
    assert(trimmed_start(s@) == t);
    if i == n {
        return None;
    }
    let mut j: usize = i;
    while j < n && !is_whitespace(s[j])
        invariant
            i <= j <= n == s@.len(),
            t == s@.subrange(i as int, n as int),
            space_index_from(t, 0) == space_index_from(t, j - i),
        decreases n - j,
    {
        assert(t[j - i] == s@[j as int]);
        j = j + 1;
    }
    proof {
        if j < n {
            assert(t[j - i] == s@[j as int]);
        }
    }
    let c = copy_range(s, i, j);
    assert(c@ =~= t.take(j - i));
    Some(c)
}

// ---------------------------------------------------------------------------
// The parser
// ---------------------------------------------------------------------------

/// What the parser has gathered after some lines.
pub struct ParseState {
    pub name: Option<Seq<char>>,
    pub localized_name: Option<Seq<char>>,
    pub localized_name_priority: u8,
    pub exec_line: Option<Seq<char>>,
    pub keywords: Option<Seq<Seq<char>>>,
    pub localized_keywords_priority: Option<u8>,
    pub terminal: bool,
    pub in_desktop_entry: bool,
    /// The file was found not to describe a launchable application.
    pub rejected: bool,
}

pub open spec fn initial_state() -> ParseState {
    ParseState {
        name: None,
        localized_name: None,
        localized_name_priority: 0,
        exec_line: None,
        keywords: None,
        localized_keywords_priority: None,
        terminal: false,
        in_desktop_entry: false,
        rejected: false,
    }
}

/// The state after a `key=value` line of the `[Desktop Entry]` group (key and
/// value trimmed).
pub open spec fn apply_pair(st: ParseState, key: Seq<char>, value: Seq<char>, locale: Locale) -> ParseState {
    if key.contains('[') {
        match localized_key_parts(key) {
            None => st,
            Some((base, tag)) => match locale.priority_spec(tag) {
                None => st,
                Some(p) => if base == "Name"@ {
                    if st.localized_name is None || p > st.localized_name_priority {
                        ParseState { localized_name: Some(value), localized_name_priority: p, ..st }
                    } else {
                        st
                    }
                } else if base == "Keywords"@ {
                    if (match st.localized_keywords_priority {
                        None => true,
                        Some(q) => p > q,
                    }) {
                        ParseState {
                            keywords: Some(keyword_list(value)),
                            localized_keywords_priority: Some(p),
                            ..st
                        }
                    } else {
                        st
                    }
                } else {
                    st
                },
            },
        }
    } else if key == "Type"@ {
        if value != "Application"@ {
            ParseState { rejected: true, ..st }
        } else {
            st
        }
    } else if key == "Name"@ {
        ParseState { name: Some(value), ..st }
    } else if key == "Exec"@ {
        if value.len() == 0 {
            ParseState { rejected: true, ..st }
        } else {
            ParseState { exec_line: Some(stripped(trimmed(without_field_codes(value)), '"')), ..st }
        }
    } else if key == "NoDisplay"@ {
        if value == "true"@ {
            ParseState { rejected: true, ..st }
        } else {
            st
        }
    } else if key == "Keywords"@ {
        if st.localized_keywords_priority is None {
            ParseState { keywords: Some(keyword_list(value)), ..st }
        } else {
            st
        }
    } else if key == "Terminal"@ {
        ParseState { terminal: value == "true"@, ..st }
    } else {
        st
    }
}

/// The state after one line of the file.
pub open spec fn apply_line(st: ParseState, raw: Seq<char>, locale: Locale) -> ParseState {
    let line = trimmed(raw);
    if line.len() > 0 && line[0] == '[' {
        ParseState { in_desktop_entry: line == "[Desktop Entry]"@, ..st }
    } else if !st.in_desktop_entry || (line.len() > 0 && line[0] == '#') || line.len() == 0 {
        st
    } else {
        match split_first(line, '=') {
            None => st,
            Some((k, v)) => apply_pair(st, trimmed(k), trimmed(v), locale),
        }
    }
}

/// The state after the lines from `i` on, starting from `st`; reading stops at
/// the first rejection.
pub open spec fn apply_lines(lines: Seq<Seq<char>>, i: int, st: ParseState, locale: Locale) -> ParseState
    decreases lines.len() - i,
{
    if i < 0 || i >= lines.len() || st.rejected {
        st
    } else {
        apply_lines(lines, i + 1, apply_line(st, lines[i], locale), locale)
    }
}

/// The entry that a finished parse describes: one with a non-empty `Name` and
/// an `Exec` that names a command, from a file that was not rejected.
pub open spec fn entry_of(st: ParseState) -> Option<EntryView> {
    if st.rejected {
        None
    } else {
        match (st.name, st.exec_line) {
            (Some(name), Some(exec_line)) => if name.len() > 0 && command_of(exec_line) is Some {
                Some(
                    EntryView {
                        name,
                        localized_name: st.localized_name,
                        keywords: match st.keywords {
                            Some(k) => k,
                            None => Seq::empty(),
                        },
                        exec_line,
                        terminal: st.terminal,
                    },
                )
            } else {
                None
            },
            _ => None,
        }
    }
}

/// What `parse` gives for a file's text. The file is read line by line, a line
/// being a `\n`-separated piece (a trailing `\r` goes with the trimming).
pub open spec fn parse_spec(content: Seq<char>, locale: Locale) -> Option<EntryView> {
    entry_of(apply_lines(split_pieces(content, '\n'), 0, initial_state(), locale))
}

/// A `%` starts every field code, so text without `%` keeps all its characters.
pub proof fn lemma_no_percent_unchanged(s: Seq<char>)
    requires
        !s.contains('%'),
    ensures
        without_field_codes(s) == s,
    decreases s.len(),
{
    if s.len() > 0 {
        assert(s[0] != '%');
        let rest = s.drop_first();
        assert(!rest.contains('%')) by {
            assert forall|k: int| 0 <= k < rest.len() implies rest[k] != '%' by {
                assert(rest[k] == s[k + 1]);
            }
        }
        lemma_no_percent_unchanged(rest);
        assert(seq![s[0]] + rest =~= s);
    }
}

proof fn lemma_outside_group_unchanged(lines: Seq<Seq<char>>, i: int, st: ParseState, locale: Locale)
    requires
        0 <= i,
        !st.in_desktop_entry,
        forall|k: int| 0 <= k < lines.len() ==> trimmed(#[trigger] lines[k]) != "[Desktop Entry]"@,
    ensures
        apply_lines(lines, i, st, locale) == st,
    decreases lines.len() - i,
{
    if i < lines.len() && !st.rejected {
        assert(trimmed(lines[i]) != "[Desktop Entry]"@);
        assert(apply_line(st, lines[i], locale) == st);
        lemma_outside_group_unchanged(lines, i + 1, st, locale);
    }
}

/// Keys count only inside the `[Desktop Entry]` group: a file in which no line
/// is that group's header describes no entry.
pub proof fn lemma_no_group_no_entry(content: Seq<char>, locale: Locale)
    requires
        forall|k: int|
            0 <= k < split_pieces(content, '\n').len() ==> trimmed(
                #[trigger] split_pieces(content, '\n')[k],
            ) != "[Desktop Entry]"@,
    ensures
        parse_spec(content, locale) is None,
{
    lemma_outside_group_unchanged(split_pieces(content, '\n'), 0, initial_state(), locale);
}

proof fn lemma_apply_lines_shift(
    l1: Seq<Seq<char>>,
    l2: Seq<Seq<char>>,
    j: int,
    st: ParseState,
    locale: Locale,
)
    requires
        0 <= j <= l2.len(),
    ensures
        apply_lines(l1 + l2, l1.len() + j, st, locale) == apply_lines(l2, j, st, locale),
    decreases l2.len() - j,
{
    if j < l2.len() && !st.rejected {
        assert((l1 + l2)[l1.len() + j] == l2[j]);
        lemma_apply_lines_shift(l1, l2, j + 1, apply_line(st, l2[j], locale), locale);
    }
}

proof fn lemma_apply_lines_concat(
    l1: Seq<Seq<char>>,
    l2: Seq<Seq<char>>,
    i: int,
    st: ParseState,
    locale: Locale,
)
    requires
        0 <= i <= l1.len(),
    ensures
        apply_lines(l1 + l2, i, st, locale) == apply_lines(l2, 0, apply_lines(l1, i, st, locale), locale),
    decreases l1.len() - i,
{
    if i == l1.len() {
        lemma_apply_lines_shift(l1, l2, 0, st, locale);
    } else if !st.rejected {
        assert((l1 + l2)[i] == l1[i]);
        lemma_apply_lines_concat(l1, l2, i + 1, apply_line(st, l1[i], locale), locale);
    }
}

/// Only the `[Desktop Entry]` group counts: text before the file's first group
/// header (`p`), and a later group (header `h`, then `s`) that is not
/// `[Desktop Entry]`, change nothing in what the text `c` describes.
pub proof fn lemma_other_text_ignored(
    p: Seq<char>,
    c: Seq<char>,
    h: Seq<char>,
    s: Seq<char>,
    locale: Locale,
)
    requires
        forall|k: int|
            0 <= k < split_pieces(p, '\n').len() ==> trimmed(#[trigger] split_pieces(p, '\n')[k])
                != "[Desktop Entry]"@,
        !h.contains('\n'),
        trimmed(h).len() > 0,
        trimmed(h)[0] == '[',
        trimmed(h) != "[Desktop Entry]"@,
        forall|k: int|
            0 <= k < split_pieces(s, '\n').len() ==> trimmed(#[trigger] split_pieces(s, '\n')[k])
                != "[Desktop Entry]"@,
    ensures
        parse_spec(p + seq!['\n'] + c + seq!['\n'] + h + seq!['\n'] + s, locale) == parse_spec(
            c,
            locale,
        ),
{
    let nl = '\n';
    let lp = split_pieces(p, nl);
    let lc = split_pieces(c, nl);
    let ls = split_pieces(s, nl);
    let tail = h + seq![nl] + s;
    assert(p + seq![nl] + c + seq![nl] + h + seq![nl] + s =~= p + seq![nl] + (c + seq![nl]
        + tail));
    lemma_split_pieces_concat(p, nl, c + seq![nl] + tail);
    lemma_split_pieces_concat(c, nl, tail);
    lemma_split_pieces_cons(h, nl, s);
    let rest = seq![h] + ls;
    let all = lp + (lc + rest);
    assert(split_pieces(p + seq![nl] + c + seq![nl] + h + seq![nl] + s, nl) =~= all);
    lemma_apply_lines_concat(lp, lc + rest, 0, initial_state(), locale);
    lemma_outside_group_unchanged(lp, 0, initial_state(), locale);
    lemma_apply_lines_concat(lc, rest, 0, initial_state(), locale);
    let st = apply_lines(lc, 0, initial_state(), locale);
    if !st.rejected {
        let st2 = apply_line(st, h, locale);
        assert(st2 == ParseState { in_desktop_entry: false, ..st });
        assert forall|k: int| 0 <= k < rest.len() implies trimmed(#[trigger] rest[k])
            != "[Desktop Entry]"@ by {
            if k > 0 {
                assert(rest[k] == ls[k - 1]);
            }
        }
        assert(rest[0] == h);
        lemma_outside_group_unchanged(rest, 1, st2, locale);
        assert(apply_lines(rest, 0, st, locale) == st2);
    }
}

/// Neither end of `s` is a double quote.
pub open spec fn unquoted_ends(s: Seq<char>) -> bool {
    s.len() > 0 ==> s[0] != '"' && s.last() != '"'
}

proof fn lemma_stripped_start_first(s: Seq<char>, c: char)
    ensures
        stripped_start(s, c).len() > 0 ==> stripped_start(s, c)[0] != c,
    decreases s.len(),
{
    if s.len() > 0 && s[0] == c {
        lemma_stripped_start_first(s.drop_first(), c);
    }
}

proof fn lemma_stripped_end_prefix(t: Seq<char>, c: char)
    ensures
        stripped_end(t, c).len() <= t.len(),
        forall|i: int| 0 <= i < stripped_end(t, c).len() ==> #[trigger] stripped_end(t, c)[i] == t[i],
        stripped_end(t, c).len() > 0 ==> stripped_end(t, c).last() != c,
    decreases t.len(),
{
    if t.len() > 0 && t.last() == c {
        lemma_stripped_end_prefix(t.drop_last(), c);
    }
}

proof fn lemma_stripped_ends(s: Seq<char>, c: char)
    ensures
        stripped(s, c).len() > 0 ==> stripped(s, c)[0] != c && stripped(s, c).last() != c,
{
    lemma_stripped_start_first(s, c);
    lemma_stripped_end_prefix(stripped_start(s, c), c);
    if stripped(s, c).len() > 0 {
        assert(stripped(s, c)[0] == stripped_start(s, c)[0]);
    }
}

proof fn lemma_apply_lines_unquoted(lines: Seq<Seq<char>>, i: int, st: ParseState, locale: Locale)
    requires
        0 <= i,
        st.exec_line matches Some(e) ==> unquoted_ends(e),
    ensures
        apply_lines(lines, i, st, locale).exec_line matches Some(e) ==> unquoted_ends(e),
    decreases lines.len() - i,
{
    if i < lines.len() && !st.rejected {
        let next = apply_line(st, lines[i], locale);
        let line = trimmed(lines[i]);
        if let Some((k, v)) = split_first(line, '=') {
            lemma_stripped_ends(trimmed(without_field_codes(trimmed(v))), '"');
        }
        assert(next.exec_line matches Some(e) ==> unquoted_ends(e));
        lemma_apply_lines_unquoted(lines, i + 1, next, locale);
    }
}

/// The command line of a parsed entry is not empty and has no double quote at
/// either end: the quotes around the command are stripped after the field
/// codes and the surrounding white space are removed.
pub proof fn lemma_exec_line_unquoted(content: Seq<char>, locale: Locale)
    ensures
        parse_spec(content, locale) matches Some(e) ==> e.exec_line.len() > 0 && e.exec_line[0]
            != '"' && e.exec_line.last() != '"',
{
    lemma_apply_lines_unquoted(split_pieces(content, '\n'), 0, initial_state(), locale);
}

/// The locale priority of a line that is a localized `Keywords[tag]=...` line
/// of the `[Desktop Entry]` group, read in state `st`; `None` for any other line.
pub open spec fn keywords_line_priority(st: ParseState, raw: Seq<char>, locale: Locale) -> Option<u8> {
    let line = trimmed(raw);
    if !st.in_desktop_entry || line.len() == 0 || line[0] == '[' || line[0] == '#' {
        None
    } else {
        match split_first(line, '=') {
            None => None,
            Some((k, v)) => {
                let key = trimmed(k);
                if key.contains('[') {
                    match localized_key_parts(key) {
                        Some((base, tag)) => if base == "Keywords"@ {
                            locale.priority_spec(tag)
                        } else {
                            None
                        },
                        None => None,
                    }
                } else {
                    None
                }
            },
        }
    }
}

/// Priorities only rise, and what was kept changes only when they rise.
pub open spec fn priorities_kept(st: ParseState, next: ParseState) -> bool {
    &&& st.localized_keywords_priority matches Some(p) ==> (next.localized_keywords_priority matches Some(
        p2,
    ) && p2 >= p && (p2 == p ==> next.keywords == st.keywords))
    &&& st.localized_name is Some ==> (next.localized_name is Some && next.localized_name_priority
        >= st.localized_name_priority && (next.localized_name_priority
        == st.localized_name_priority ==> next.localized_name == st.localized_name))
}

proof fn lemma_apply_line_priorities(st: ParseState, raw: Seq<char>, locale: Locale)
    ensures
        priorities_kept(st, apply_line(st, raw, locale)),
        keywords_line_priority(st, raw, locale) matches Some(p) ==> (apply_line(
            st,
            raw,
            locale,
        ).localized_keywords_priority matches Some(p2) && p2 >= p),
{
    reveal_strlit("Keywords");
    reveal_strlit("Name");
    assert("Keywords"@ != "Name"@) by {
        assert("Keywords"@.len() != "Name"@.len());
    }
}

/// Localized values are chosen by locale priority: reading lines never lowers
/// the priority of the kept localized keywords or name, a line of a priority
/// not above the kept one's does not replace what was kept, and every
/// localized `Keywords` line read leaves a kept priority at least its own.
pub proof fn lemma_localized_priority(lines: Seq<Seq<char>>, i: int, st: ParseState, locale: Locale)
    requires
        0 <= i,
    ensures
        priorities_kept(st, apply_lines(lines, i, st, locale)),
        i < lines.len() && !st.rejected ==> (keywords_line_priority(st, lines[i], locale) matches Some(
            p,
        ) ==> (apply_lines(lines, i, st, locale).localized_keywords_priority matches Some(p2) && p2
            >= p)),
    decreases lines.len() - i,
{
    if i < lines.len() && !st.rejected {
        let next = apply_line(st, lines[i], locale);
        lemma_apply_line_priorities(st, lines[i], locale);
        lemma_localized_priority(lines, i + 1, next, locale);
    }
}

struct ParseBuilder {
    name: Option<Vec<char>>,
    localized_name: Option<Vec<char>>,
    localized_name_priority: u8,
    exec_line: Option<Vec<char>>,
    keywords: Option<Vec<String>>,
    localized_keywords_priority: Option<u8>,
    terminal: bool,
    in_desktop_entry: bool,
    rejected: bool,
}

spec fn opt_chars(o: Option<Vec<char>>) -> Option<Seq<char>> {
    match o {
        Some(v) => Some(v@),
        None => None,
    }
}

impl ParseBuilder {
    spec fn state(&self) -> ParseState {
        ParseState {
            name: opt_chars(self.name),
            localized_name: opt_chars(self.localized_name),
            localized_name_priority: self.localized_name_priority,
            exec_line: opt_chars(self.exec_line),
            keywords: match self.keywords {
                Some(k) => Some(string_views(k@)),
                None => None,
            },
            localized_keywords_priority: self.localized_keywords_priority,
            terminal: self.terminal,
            in_desktop_entry: self.in_desktop_entry,
            rejected: self.rejected,
        }
    }

    fn apply_pair(&mut self, key: &[char], value: &[char], locale: &Locale)
        ensures
            final(self).state() == apply_pair(old(self).state(), key@, value@, *locale),
    {
        if find_char(key, '[').is_some() {
            proof {
                lemma_first_index_from(key@, '[', 0);
            }
            assert(key@.contains('[')) by {
                let k = first_index(key@, '[')->0;
                assert(key@[k] == '[');
            }
            let parts = parse_localized_key(key);
            if let Some((base, tag)) = parts {
                let tag_s = string_from_chars(&tag);
                if let Some(p) = locale.priority(tag_s.as_str()) {
                    if chars_eq_str(&base, "Name") {
                        if self.localized_name.is_none() || p > self.localized_name_priority {
                            self.localized_name = Some(copy_range(value, 0, value.len()));
                            self.localized_name_priority = p;
                            assert(self.localized_name->0@ =~= value@);
                        }
                    } else if chars_eq_str(&base, "Keywords") {
                        let newer = match self.localized_keywords_priority {
                            None => true,
                            Some(q) => p > q,
                        };
                        if newer {
                            self.keywords = Some(parse_keywords(value));
                            self.localized_keywords_priority = Some(p);
                        }
                    }
                }
            }
            return ;
        }
        proof {
            lemma_first_index_from(key@, '[', 0);
        }
        assert(!key@.contains('['));
        if chars_eq_str(key, "Type") {
            if !chars_eq_str(value, "Application") {
                self.rejected = true;
            }
        } else if chars_eq_str(key, "Name") {
            self.name = Some(copy_range(value, 0, value.len()));
            assert(self.name->0@ =~= value@);
        } else if chars_eq_str(key, "Exec") {
            if value.len() == 0 {
                self.rejected = true;
            } else {
                let stripped = strip_field_codes(value);
                let t = trim(&stripped);
                self.exec_line = Some(trim_char(&t, '"'));
            }
        } else if chars_eq_str(key, "NoDisplay") {
            if chars_eq_str(value, "true") {
                self.rejected = true;
            }
        } else if chars_eq_str(key, "Keywords") {
            if self.localized_keywords_priority.is_none() {
                self.keywords = Some(parse_keywords(value));
            }
        } else if chars_eq_str(key, "Terminal") {
            self.terminal = chars_eq_str(value, "true");
        }
    }

    fn apply_line(&mut self, raw: &[char], locale: &Locale)
        ensures
            final(self).state() == apply_line(old(self).state(), raw@, *locale),
    {
        let line = trim(raw);
        if starts_with_char(&line, '[') {
            self.in_desktop_entry = chars_eq_str(&line, "[Desktop Entry]");
            return ;
        }
        if !self.in_desktop_entry || starts_with_char(&line, '#') || line.len() == 0 {
            return ;
        }
        match split_once_char(&line, '=') {
            Some((k, v)) => {
                let key = trim(&k);
                let value = trim(&v);
                self.apply_pair(&key, &value, locale);
            },
            None => {},
        }
    }
}

/// Parses the text of a `.desktop` file. `None` where the file does not
/// describe a launchable application: no `[Desktop Entry]` group with a
/// non-empty `Name` and an `Exec` that names a command, or a `Type` other than
/// `Application`, an empty `Exec`, or `NoDisplay=true` in it. Whether the
/// command exists on disk is left to the caller (see `exec_command`).
pub fn parse(content: &str, locale: &Locale) -> (r: Option<Entry>)
    ensures
        r matches Some(e) ==> parse_spec(content@, *locale) == Some(e@),
        r is None ==> parse_spec(content@, *locale) is None,
{
    let chars = chars_of(content);
    let lines = split_char(&chars, '\n');
    let ghost all = split_pieces(content@, '\n');
    let mut b = ParseBuilder {
        name: None,
        localized_name: None,
        localized_name_priority: 0,
        exec_line: None,
        keywords: None,
        localized_keywords_priority: None,
        terminal: false,
        in_desktop_entry: false,
        rejected: false,
    };
    let mut i: usize = 0;
    while i < lines.len() && !b.rejected
        invariant
            i <= lines@.len(),
            char_vecs(lines@) == all,
            all == split_pieces(content@, '\n'),
            apply_lines(all, 0, initial_state(), *locale) == apply_lines(all, i as int, b.state(), *locale),
        decreases lines.len() - i,
    {
        assert(char_vecs(lines@)[i as int] == lines@[i as int]@);
        b.apply_line(&lines[i], locale);
        i = i + 1;
    }
    assert(all.len() == lines@.len());
    assert(apply_lines(all, i as int, b.state(), *locale) == b.state());
    if b.rejected {
        return None;
    }
    let name = match b.name {
        Some(n) => n,
        None => return None,
    };
    let exec_line = match b.exec_line {
        Some(e) => e,
        None => return None,
    };
    if name.len() == 0 {
        return None;
    }
    if command_chars(&exec_line).is_none() {
        return None;
    }
    let keywords = match b.keywords {
        Some(k) => k,
        None => {
            let v: Vec<String> = Vec::new();
            assert(string_views(v@) =~= Seq::<Seq<char>>::empty());
            v
        },
    };
    let localized_name = match b.localized_name {
        Some(l) => Some(string_from_chars(&l)),
        None => None,
    };
    let e = Entry {
        name: string_from_chars(&name),
        localized_name,
        keywords,
        exec_line: string_from_chars(&exec_line),
        terminal: b.terminal,
    };
    Some(e)
}

} // verus!
