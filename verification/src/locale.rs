//! The user's locale and how well a desktop-entry locale tag matches it.
use vstd::prelude::*;

use crate::text::{before_char, before_first, chars_eq, chars_of, string_from_chars};

verus! {

/// The user's locale, as `lang_TERRITORY.CODESET@MODIFIER`, with its two
/// shorter forms.
pub struct Locale {
    full: String,
    lang_territory: String,
    lang: String,
}

/// The first value that is set and not empty, or the empty string.
pub open spec fn first_set(values: Seq<Option<Seq<char>>>) -> Seq<char>
    decreases values.len(),
{
    if values.len() == 0 {
        Seq::empty()
    } else {
        match values[0] {
            Some(v) if v.len() > 0 => v,
            _ => first_set(values.drop_first()),
        }
    }
}

/// The character sequences held by optional strings.
pub open spec fn option_strings(values: Seq<Option<String>>) -> Seq<Option<Seq<char>>> {
    values.map_values(
        |o: Option<String>|
            match o {
                Some(s) => Some(s@),
                None => None,
            },
    )
}

/// How well the locale tag `tag` matches a locale (`full`, `lang_territory`,
/// `lang`): 2 for the whole tag, 1 for `lang_TERRITORY`, 0 for `lang`.
pub open spec fn priority_of(
    full: Seq<char>,
    lang_territory: Seq<char>,
    lang: Seq<char>,
    tag: Seq<char>,
) -> Option<u8> {
    let tag_lang_territory = before_first(tag, '.');
    let tag_lang = before_first(tag_lang_territory, '_');
    if tag == full {
        Some(2u8)
    } else if tag_lang_territory.len() > 0 && tag_lang_territory == lang_territory {
        Some(1u8)
    } else if tag_lang.len() > 0 && tag_lang == lang {
        Some(0u8)
    } else {
        None
    }
}

impl Locale {
    /// The whole locale value.
    pub closed spec fn full(&self) -> Seq<char> {
        self.full@
    }

    /// The locale up to its first `.`.
    pub closed spec fn lang_territory(&self) -> Seq<char> {
        self.lang_territory@
    }

    /// The locale up to its first `.`, then up to its first `_`.
    pub closed spec fn lang(&self) -> Seq<char> {
        self.lang@
    }

    /// What `priority` returns for `tag`.
    pub open spec fn priority_spec(&self, tag: Seq<char>) -> Option<u8> {
        priority_of(self.full(), self.lang_territory(), self.lang(), tag)
    }

    /// A tag naming the whole locale has the highest priority.
    pub proof fn lemma_own_tag_first(&self)
        ensures
            self.priority_spec(self.full()) == Some(2u8),
            forall|tag: Seq<char>| #[trigger] self.priority_spec(tag) matches Some(p) ==> p <= 2,
    {
    }

    /// The locale named by `full`.
    pub fn new(full: &str) -> (r: Locale)
        ensures
            r.full() == full@,
            r.lang_territory() == before_first(full@, '.'),
            r.lang() == before_first(before_first(full@, '.'), '_'),
    {
        let chars = chars_of(full);
        let lt = before_char(&chars, '.');
        let l = before_char(&lt, '_');
        Locale {
            full: string_from_chars(&chars),
            lang_territory: string_from_chars(&lt),
            lang: string_from_chars(&l),
        }
    }

    /// The locale given by the first of `values` that is set and not empty
    /// (the values of `LC_ALL`, `LC_MESSAGES` and `LANG`, in that order), or
    /// the empty locale.
    pub fn from_values(values: &[Option<String>]) -> (r: Locale)
        ensures
            r.full() == first_set(option_strings(values@)),
            r.lang_territory() == before_first(first_set(option_strings(values@)), '.'),
            r.lang() == before_first(before_first(first_set(option_strings(values@)), '.'), '_'),
    {
        let ghost all = option_strings(values@);
        let mut i: usize = 0;
        assert(all.skip(0) =~= all);
        while i < values.len()
            invariant
                i <= values@.len(),
                all == option_strings(values@),
                first_set(all) == first_set(all.skip(i as int)),
            decreases values.len() - i,
        {
            assert(all.skip(i as int).drop_first() =~= all.skip(i + 1));
            match &values[i] {
                Some(v) => {
                    let chars = chars_of(v.as_str());
                    if chars.len() > 0 {
                        return Locale::new(v.as_str());
                    }
                },
                None => {},
            }
            i = i + 1;
        }
        assert(all.skip(i as int) =~= Seq::<Option<Seq<char>>>::empty());
        proof {
            reveal_strlit("");
        }
        Locale::new("")
    }

    /// How well the locale tag `entry_locale` matches this locale: `Some(2)`
    /// for the whole locale, `Some(1)` for the same `lang_TERRITORY`, `Some(0)`
    /// for the same `lang`, `None` otherwise.
    pub fn priority(&self, entry_locale: &str) -> (r: Option<u8>)
        ensures
            r == self.priority_spec(entry_locale@),
    {
        let tag = chars_of(entry_locale);
        let tag_lt = before_char(&tag, '.');
        let tag_l = before_char(&tag_lt, '_');
        let full = chars_of(self.full.as_str());
        let lt = chars_of(self.lang_territory.as_str());
        let l = chars_of(self.lang.as_str());
        if chars_eq(&tag, &full) {
            Some(2)
        } else if tag_lt.len() > 0 && chars_eq(&tag_lt, &lt) {
            Some(1)
        } else if tag_l.len() > 0 && chars_eq(&tag_l, &l) {
            Some(0)
        } else {
            None
        }
    }
}

} // verus!
