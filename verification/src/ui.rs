//! What the interface computes before drawing.
use vstd::prelude::*;

use ratatui::layout::{Constraint, Layout, Rect};

use crate::collection::EntryCollection;
use crate::text::chars_of;
use crate::theme::Theme;

verus! {

/// The interface; it keeps no state of its own.
pub struct AppUI {}

/// A character count as `usize as u16` turns it.
pub open spec fn count_u16(n: nat) -> int {
    (n % 0x10000) as int
}

/// The two areas that ratatui's vertical `Layout` with the constraints
/// `Min(list_min)` and `Length(bar_height)` cuts `area` into, each as
/// (x, y, width, height).
pub uninterp spec fn screen_areas(area: (u16, u16, u16, u16), list_min: u16, bar_height: u16) -> (
    (u16, u16, u16, u16),
    (u16, u16, u16, u16),
);

/// Calls ratatui's `Layout::split` on a vertical layout of a `Min(list_min)`
/// area above a `Length(bar_height)` area. The result, a function of the
/// arguments alone (ratatui's layout cache returns the same rectangles for the
/// same inputs), is named by `screen_areas`; nothing more is stated of it.
#[verifier::external_body]
fn split_screen(area: (u16, u16, u16, u16), list_min: u16, bar_height: u16) -> (r: (
    (u16, u16, u16, u16),
    (u16, u16, u16, u16),
))
    ensures
        r == screen_areas(area, list_min, bar_height),
{
    let rects = Layout::vertical([Constraint::Min(list_min), Constraint::Length(bar_height)])
        .split(Rect::new(area.0, area.1, area.2, area.3));
    ((rects[0].x, rects[0].y, rects[0].width, rects[0].height), (
        rects[1].x,
        rects[1].y,
        rects[1].width,
        rects[1].height,
    ))
}

/// What one frame of the interface shows.
pub struct DrawPlan {
    /// Where the selected entry is shown, as (x, y, width, height).
    pub list_area: (u16, u16, u16, u16),
    /// Where the search bar is shown.
    pub search_area: (u16, u16, u16, u16),
    /// The name of the selected entry, if one is selected.
    pub item: Option<String>,
    /// Whether the search bar shows the placeholder (the query is empty) rather
    /// than the query.
    pub show_placeholder: bool,
    /// Where the cursor goes.
    pub cursor: (u16, u16),
}

/// The cursor position in a search bar at `bar`, as `cursor_position` gives it.
pub open spec fn cursor_in(bar: (u16, u16, u16, u16), theme: Theme, query: Seq<char>) -> (int, int) {
    (
        bar.0 + theme.padding_search.0 + count_u16(theme.prompt_str@.len()) + count_u16(
            query.len(),
        ),
        bar.1 + theme.padding_search.2,
    )
}

/// The cursor position in a search bar at `bar` fits in a `u16`.
pub open spec fn cursor_fits(bar: (u16, u16, u16, u16), theme: Theme, query: Seq<char>) -> bool {
    cursor_in(bar, theme, query).0 <= u16::MAX && cursor_in(bar, theme, query).1 <= u16::MAX
}

impl AppUI {
    pub fn new() -> (r: AppUI) {
        AppUI {  }
    }

    /// Where the cursor goes in the search bar whose top-left corner is
    /// (`area_x`, `area_y`): after the left padding, the prompt and the query
    /// (counted in characters); on the row below the top padding. The
    /// positions must fit in a `u16`.
    pub fn cursor_position(&self, area_x: u16, area_y: u16, theme: &Theme, query: &str) -> (r: (
        u16,
        u16,
    ))
        requires
            area_x + theme.padding_search.0 + count_u16(theme.prompt_str@.len()) + count_u16(
                query@.len(),
            ) <= u16::MAX,
            area_y + theme.padding_search.2 <= u16::MAX,
        ensures
            r.0 == area_x + theme.padding_search.0 + count_u16(theme.prompt_str@.len()) + count_u16(
                query@.len(),
            ),
            r.1 == area_y + theme.padding_search.2,
    {
        let prompt_len = chars_of(theme.prompt_str.as_str()).len();
        let query_len = chars_of(query).len();
        let p = prompt_len as u16;
        let q = query_len as u16;
        assert(p == prompt_len % 0x10000) by (bit_vector)
            requires
                p == prompt_len as u16,
        ;
        assert(q == query_len % 0x10000) by (bit_vector)
            requires
                q == query_len as u16,
        ;
        (area_x + theme.padding_search.0 + p + q, area_y + theme.padding_search.2)
    }
}

impl AppUI {
    /// What to show, given the two areas of the screen: the selected entry's
    /// name in the list area when one is selected, the placeholder or the
    /// query in the search bar, and the cursor after the prompt and query.
    pub fn plan_for_areas(
        &self,
        areas: ((u16, u16, u16, u16), (u16, u16, u16, u16)),
        theme: &Theme,
        entries: &EntryCollection,
        result: Option<usize>,
        query: &str,
    ) -> (r: DrawPlan)
        requires
            result matches Some(i) ==> i < entries@.len(),
            cursor_fits(areas.1, *theme, query@),
        ensures
            r.list_area == areas.0,
            r.search_area == areas.1,
            r.item is Some <==> result is Some,
            result matches Some(i) ==> r.item->0@ == entries@[i as int].name,
            r.show_placeholder == (query@.len() == 0),
            r.cursor.0 == cursor_in(areas.1, *theme, query@).0,
            r.cursor.1 == cursor_in(areas.1, *theme, query@).1,
    {
        let item = match result {
            Some(i) => Some(entries.get(i).get_localized_name().to_owned()),
            None => None,
        };
        let cursor = self.cursor_position(areas.1.0, areas.1.1, theme, query);
        DrawPlan {
            list_area: areas.0,
            search_area: areas.1,
            item,
            show_placeholder: query.is_empty(),
            cursor,
        }
    }

    /// What to show on a screen whose area is `area`: the screen is cut into a
    /// list area above a search bar `theme.search_bar_height` rows high, as
    /// ratatui's layout does, and filled as `plan_for_areas` says. `None` where
    /// the cursor position would not fit in a `u16`.
    pub fn plan(
        &self,
        area: (u16, u16, u16, u16),
        theme: &Theme,
        entries: &EntryCollection,
        result: Option<usize>,
        query: &str,
    ) -> (r: Option<DrawPlan>)
        requires
            result matches Some(i) ==> i < entries@.len(),
        ensures
            r is Some <==> cursor_fits(screen_areas(area, 0, theme.search_bar_height).1, *theme, query@),
            r matches Some(p) ==> {
                &&& (p.list_area, p.search_area) == screen_areas(area, 0, theme.search_bar_height)
                &&& (p.item is Some <==> result is Some)
                &&& (result matches Some(i) ==> p.item->0@ == entries@[i as int].name)
                &&& p.show_placeholder == (query@.len() == 0)
                &&& p.cursor.0 == cursor_in(p.search_area, *theme, query@).0
                &&& p.cursor.1 == cursor_in(p.search_area, *theme, query@).1
            },
    {
        let areas = split_screen(area, 0, theme.search_bar_height);
        let bar = areas.1;
        let prompt_len = chars_of(theme.prompt_str.as_str()).len();
        let query_len = chars_of(query).len();
        let p = prompt_len as u16;
        let q = query_len as u16;
        assert(p == prompt_len % 0x10000) by (bit_vector)
            requires
                p == prompt_len as u16,
        ;
        assert(q == query_len % 0x10000) by (bit_vector)
            requires
                q == query_len as u16,
        ;
        let x = bar.0 as u32 + theme.padding_search.0 as u32 + p as u32 + q as u32;
        let y = bar.1 as u32 + theme.padding_search.2 as u32;
        if x > u16::MAX as u32 || y > u16::MAX as u32 {
            return None;
        }
        Some(self.plan_for_areas(areas, theme, entries, result, query))
    }
}

} // verus!
