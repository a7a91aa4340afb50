//! The launcher's state and how it answers keys: the decisions of the
//! interactive loop, which the program around the library drives.
use vstd::prelude::*;

use crate::collection::{is_most_used, searched, EntryCollection};
use crate::entry::EntryView;
use crate::history::{usage_of, EntryHistory};
use crate::text::{
    chars_of, copy_range, is_ascii_punct, is_ascii_punctuation, is_white_space, is_whitespace,
    pop_char, push_char, string_from_chars,
};
use crate::theme::Theme;
use crate::ui::AppUI;

verus! {

/// A key, as the launcher tells keys apart.
pub enum KeyCode {
    Char(char),
    Backspace,
    Tab,
    Enter,
    Esc,
    Other,
}

/// A key press. `control` holds when Control, and no other modifier, was held.
pub struct KeyInput {
    pub code: KeyCode,
    pub control: bool,
}

/// What the launcher does with the selected entry when it closes.
pub enum LaunchAction {
    /// Nothing is selected.
    Nothing,
    /// A terminal application: the launcher's process becomes `sh -c command`.
    ReplaceProcess { command: String },
    /// A graphical application: `sh -c command` is started in a process group
    /// of its own, detached from the launcher.
    Spawn { command: String },
}

impl LaunchAction {
    /// Whether the launcher exits once the action is carried out: after
    /// spawning a graphical application. (A process replacement that returns
    /// has failed, and the launcher then goes on to end normally.)
    pub fn exits_launcher(&self) -> (r: bool)
        ensures
            r == (self is Spawn),
    {
        match self {
            LaunchAction::Spawn { .. } => true,
            _ => false,
        }
    }
}

/// White space and ASCII punctuation separate words.
pub open spec fn is_word_bound_spec(c: char) -> bool {
    is_white_space(c) || is_ascii_punct(c)
}

/// Whether `c` separates words.
pub fn is_word_bound(c: char) -> (r: bool)
    ensures
        r == is_word_bound_spec(c),
{
    is_whitespace(c) || is_ascii_punctuation(c)
}

/// Where the run of characters of class `b` that ends at `j` begins.
pub open spec fn run_start(s: Seq<char>, b: bool, j: int) -> int
    decreases j,
{
    if j > 0 && j <= s.len() && is_word_bound_spec(s[j - 1]) == b {
        run_start(s, b, j - 1)
    } else {
        j
    }
}

/// `s` without its last word: without the longest run at its end of
/// characters of the same class (separators, or not) as its last one.
pub open spec fn without_last_word(s: Seq<char>) -> Seq<char> {
    if s.len() == 0 {
        s
    } else {
        s.take(run_start(s, is_word_bound_spec(s.last()), s.len() as int))
    }
}

/// The launcher's state.
pub struct Application {
    theme: Theme,
    ui: AppUI,
    query: String,
    entries: EntryCollection,
    history: EntryHistory,
    result: Option<usize>,
}

impl Application {
    pub closed spec fn theme_spec(&self) -> Theme {
        self.theme
    }

    pub closed spec fn query_spec(&self) -> Seq<char> {
        self.query@
    }

    pub closed spec fn result_spec(&self) -> Option<usize> {
        self.result
    }

    pub closed spec fn entries_spec(&self) -> Seq<EntryView> {
        self.entries@
    }

    pub closed spec fn usage_spec(&self) -> Map<Seq<char>, u32> {
        self.history@
    }

    /// The collection and the history are well formed, and a selected entry
    /// exists.
    pub closed spec fn wf(&self) -> bool {
        &&& self.entries.wf()
        &&& self.history.wf()
        &&& self.result matches Some(i) ==> i < self.entries@.len()
    }

    /// The state shows the search result for its query.
    pub open spec fn shows_results(&self) -> bool {
        searched(self.entries_spec(), self.usage_spec(), self.query_spec(), self.result_spec())
    }

    /// Entries and launch counts are those of `other`.
    pub open spec fn same_data(&self, other: &Application) -> bool {
        &&& self.entries_spec() == other.entries_spec()
        &&& self.usage_spec() == other.usage_spec()
    }

    /// A launcher with an empty query and nothing selected.
    pub fn new(theme: Theme, entries: EntryCollection, history: EntryHistory) -> (r: Application)
        requires
            entries.wf(),
            history.wf(),
        ensures
            r.wf(),
            r.query_spec().len() == 0,
            r.result_spec() is None,
            r.entries_spec() == entries@,
            r.usage_spec() == history@,
            r.theme_spec() == theme,
    {
        Application {
            theme,
            ui: AppUI::new(),
            query: String::new(),
            entries,
            history,
            result: None,
        }
    }

    pub fn query(&self) -> (r: &str)
        ensures
            r@ == self.query_spec(),
    {
        self.query.as_str()
    }

    pub fn result(&self) -> (r: Option<usize>)
        ensures
            r == self.result_spec(),
    {
        self.result
    }

    pub fn entries(&self) -> (r: &EntryCollection)
        ensures
            r@ == self.entries_spec(),
            self.wf() ==> r.wf(),
    {
        &self.entries
    }

    pub fn history(&self) -> (r: &EntryHistory)
        ensures
            r@ == self.usage_spec(),
            self.wf() ==> r.wf(),
    {
        &self.history
    }

    pub fn theme(&self) -> (r: &Theme)
        ensures
            *r == self.theme_spec(),
    {
        &self.theme
    }

    pub fn ui(&self) -> &AppUI {
        &self.ui
    }

    /// Removes the last word of the query: the longest run at its end of
    /// characters of the same class (separators, or not) as its last one.
    pub fn delete_last_word(&mut self)
        requires
            old(self).wf(),
        ensures
            final(self).wf(),
            final(self).same_data(&*old(self)),
            final(self).theme_spec() == old(self).theme_spec(),
            final(self).result_spec() == old(self).result_spec(),
            final(self).query_spec() == without_last_word(old(self).query_spec()),
            final(self).query_spec().is_prefix_of(old(self).query_spec()),
            old(self).query_spec().len() > 0 ==> final(self).query_spec().len() < old(self).query_spec().len(),
            forall|k: int|
                final(self).query_spec().len() <= k < old(self).query_spec().len()
                    ==> is_word_bound_spec(#[trigger] old(self).query_spec()[k])
                    == is_word_bound_spec(old(self).query_spec().last()),
            final(self).query_spec().len() > 0 ==> is_word_bound_spec(
                final(self).query_spec().last(),
            ) != is_word_bound_spec(old(self).query_spec().last()),
    {
        let chars = chars_of(self.query.as_str());
        let ghost s = chars@;
        let n = chars.len();
        let mut index = n;
        if index > 0 {
            let is_bound = is_word_bound(chars[index - 1]);
            while index > 0 && is_word_bound(chars[index - 1]) == is_bound
                invariant
                    0 <= index <= n == s.len(),
                    s == chars@,
                    n > 0,
                    is_bound == is_word_bound_spec(s.last()),
                    run_start(s, is_bound, n as int) == run_start(s, is_bound, index as int),
                    forall|k: int| index <= k < n ==> is_word_bound_spec(#[trigger] s[k]) == is_bound,
                    index == n || index < n - 1 || is_word_bound_spec(s[index as int]) == is_bound,
                decreases index,
            {
                index = index - 1;
            }
            assert(index < n) by {
                assert(is_word_bound_spec(s[n - 1]) == is_bound);
            }
        }
        let prefix = copy_range(&chars, 0, index);
        let kept = string_from_chars(&prefix);
        assert(prefix@ =~= s.take(index as int));
        self.query = kept;
    }

    /// Searches for the query and selects the result.
    pub fn refresh_results(&mut self)
        requires
            old(self).wf(),
        ensures
            final(self).wf(),
            final(self).same_data(&*old(self)),
            final(self).theme_spec() == old(self).theme_spec(),
            final(self).query_spec() == old(self).query_spec(),
            final(self).shows_results(),
    {
        let r = self.entries.search(self.query.as_str(), &self.history);
        self.result = r;
    }

    /// How the launcher answers `key`: `after` is the state that follows
    /// `before`, and `keep_open` is what `handle_key` returns.
    pub open spec fn answers_key(
        before: &Application,
        after: &Application,
        key: KeyInput,
        keep_open: bool,
    ) -> bool {
        match key.code {
            KeyCode::Char(c) => if key.control {
                if c == 'h' {
                    keep_open && after.query_spec() == without_last_word(
                        before.query_spec(),
                    ) && after.shows_results()
                } else if c == 'u' {
                    keep_open && after.query_spec().len() == 0
                        && after.shows_results()
                } else if c == 'q' {
                    !keep_open && after.query_spec() == before.query_spec()
                        && after.result_spec() is None
                } else {
                    keep_open && after.query_spec() == before.query_spec()
                        && after.result_spec() == before.result_spec()
                }
            } else {
                keep_open && after.query_spec() == before.query_spec().push(c)
                    && after.shows_results()
            },
            KeyCode::Backspace => keep_open && after.shows_results() && after.query_spec() == (if key.control {
                without_last_word(before.query_spec())
            } else if before.query_spec().len() > 0 {
                before.query_spec().drop_last()
            } else {
                before.query_spec()
            }),
            KeyCode::Tab => keep_open && match before.result_spec() {
                Some(i) => after.query_spec() == before.entries_spec()[i as int].name
                    && after.shows_results(),
                None => after.query_spec() == before.query_spec()
                    && after.result_spec() == before.result_spec(),
            },
            KeyCode::Enter => !keep_open && after.query_spec() == before.query_spec()
                && after.result_spec() == before.result_spec(),
            KeyCode::Esc => !keep_open && after.query_spec() == before.query_spec()
                && after.result_spec() is None,
            KeyCode::Other => keep_open && after.query_spec() == before.query_spec()
                && after.result_spec() == before.result_spec(),
        }
    }

    /// Answers a key press; `false` when the launcher is to close. Enter
    /// closes keeping the selection, Escape and Control-Q close clearing it;
    /// a character extends the query, Backspace shortens it (Control-Backspace
    /// and Control-H by a word), Control-U clears it, Tab completes it to the
    /// selected entry's name; each of these searches again.
    pub fn handle_key(&mut self, key: KeyInput) -> (keep_open: bool)
        requires
            old(self).wf(),
        ensures
            final(self).wf(),
            final(self).same_data(&*old(self)),
            final(self).theme_spec() == old(self).theme_spec(),
            Self::answers_key(&*old(self), &*final(self), key, keep_open),
    {
        match key.code {
            KeyCode::Char(c) => {
                if key.control {
                    if c == 'h' {
                        self.delete_last_word();
                        self.refresh_results();
                    } else if c == 'u' {
                        self.query = String::new();
                        self.refresh_results();
                    } else if c == 'q' {
                        self.result = None;
                        return false;
                    }
                    return true;
                }
                push_char(&mut self.query, c);
                self.refresh_results();
            },
            KeyCode::Backspace => {
                if key.control {
                    self.delete_last_word();
                } else {
                    pop_char(&mut self.query);
                }
                self.refresh_results();
            },
            KeyCode::Tab => {
                if let Some(res) = self.result {
                    let name = chars_of(self.entries.get(res).get_localized_name());
                    self.query = string_from_chars(&name);
                    self.refresh_results();
                }
            },
            KeyCode::Enter => {
                return false;
            },
            KeyCode::Esc => {
                self.result = None;
                return false;
            },
            KeyCode::Other => {},
        }
        true
    }

    /// What to launch: the selected entry's command, in place of the launcher
    /// for a terminal application, in a new process otherwise.
    pub fn launch_action(&self) -> (r: LaunchAction)
        requires
            self.wf(),
        ensures
            match self.result_spec() {
                None => r is Nothing,
                Some(i) => if self.entries_spec()[i as int].terminal {
                    r matches LaunchAction::ReplaceProcess { command } && command@
                        == self.entries_spec()[i as int].exec_line
                } else {
                    r matches LaunchAction::Spawn { command } && command@
                        == self.entries_spec()[i as int].exec_line
                },
            },
    {
        match self.result {
            Some(idx) => {
                let entry = self.entries.get(idx);
                let command = string_from_chars(&chars_of(entry.get_exec()));
                if entry.is_terminal() {
                    LaunchAction::ReplaceProcess { command }
                } else {
                    LaunchAction::Spawn { command }
                }
            },
            None => LaunchAction::Nothing,
        }
    }

    /// The key edits the query: a character typed, Backspace, Control-H,
    /// Control-U, or Tab while an entry is selected.
    pub open spec fn edits_query(key: KeyInput, before: &Application) -> bool {
        match key.code {
            KeyCode::Char(c) => !key.control || c == 'h' || c == 'u',
            KeyCode::Backspace => true,
            KeyCode::Tab => before.result_spec() is Some,
            _ => false,
        }
    }

    /// Every key that edits the query keeps the launcher open and searches
    /// again: the new state shows the search result for its new query (after
    /// Control-U, the result for the empty query). Enter closes keeping the
    /// selection; Escape and Control-Q close clearing it.
    pub proof fn lemma_edits_search_again(
        before: &Application,
        after: &Application,
        key: KeyInput,
        keep_open: bool,
    )
        requires
            Self::answers_key(before, after, key, keep_open),
        ensures
            Self::edits_query(key, before) ==> keep_open && searched(
                after.entries_spec(),
                after.usage_spec(),
                after.query_spec(),
                after.result_spec(),
            ),
            key.code is Char && key.control && key.code->Char_0 == 'u' ==> after.query_spec().len()
                == 0 && is_most_used(after.entries_spec(), after.usage_spec(), after.result_spec()),
            key.code is Enter ==> !keep_open && after.result_spec() == before.result_spec(),
            (key.code is Esc || (key.code is Char && key.control && key.code->Char_0 == 'q'))
                ==> !keep_open && after.result_spec() is None,
    {
    }

    /// Backspace undoes typing: after a character key and then Backspace, the
    /// launcher is open with the query it had before, showing that query's
    /// search result.
    pub proof fn lemma_backspace_undoes_typing(
        a0: &Application,
        a1: &Application,
        a2: &Application,
        c: char,
        k1: bool,
        k2: bool,
    )
        requires
            Self::answers_key(a0, a1, (KeyInput { code: KeyCode::Char(c), control: false }), k1),
            Self::answers_key(a1, a2, (KeyInput { code: KeyCode::Backspace, control: false }), k2),
        ensures
            k1 && k2,
            a2.query_spec() == a0.query_spec(),
            a2.shows_results(),
    {
        assert(a0.query_spec().push(c).drop_last() =~= a0.query_spec());
    }

    /// Whether a launch of the selection can be counted: something is
    /// selected and its count is below `u32::MAX`.
    pub open spec fn can_record(&self) -> bool {
        self.result_spec() matches Some(i) ==> usage_of(
            self.usage_spec(),
            self.entries_spec()[i as int].name,
        ) < u32::MAX
    }

    /// Counts a launch of the selected entry in the history, which the caller
    /// then saves (see `EntryHistory::to_text`); nothing happens when nothing
    /// is selected.
    pub fn record_launch(&mut self)
        requires
            old(self).wf(),
            old(self).can_record(),
        ensures
            final(self).wf(),
            final(self).entries_spec() == old(self).entries_spec(),
            final(self).query_spec() == old(self).query_spec(),
            final(self).result_spec() == old(self).result_spec(),
            final(self).theme_spec() == old(self).theme_spec(),
            match old(self).result_spec() {
                None => final(self).usage_spec() == old(self).usage_spec(),
                Some(i) => {
                    let name = old(self).entries_spec()[i as int].name;
                    final(self).usage_spec() == old(self).usage_spec().insert(
                        name,
                        (usage_of(old(self).usage_spec(), name) + 1) as u32,
                    )
                },
            },
    {
        if let Some(idx) = self.result {
            let entry = self.entries.get(idx);
            self.history.increment(entry.get_name());
        }
    }
}

} // verus!
