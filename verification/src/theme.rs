//! Colours, paddings and texts of the launcher's interface.
use vstd::prelude::*;

verus! {

/// A text style: a foreground colour as `0xRRGGBB`, optionally bold.
pub struct TextStyle {
    pub fg: u32,
    pub bold: bool,
}

/// The look of the launcher. Paddings are (left, right, top, bottom).
pub struct Theme {
    pub prompt: TextStyle,
    pub placeholder: TextStyle,
    pub item: TextStyle,
    pub padding_list: (u16, u16, u16, u16),
    pub padding_search: (u16, u16, u16, u16),
    pub prompt_str: String,
    pub placeholder_str: String,
    pub search_bar_height: u16,
}

impl Default for Theme {
    fn default() -> (r: Theme)
        ensures
            r.prompt == (TextStyle { fg: 0x768fa2, bold: true }),
            r.placeholder == (TextStyle { fg: 0x555555, bold: false }),
            r.item == (TextStyle { fg: 0x777777, bold: false }),
            r.padding_list == (3u16, 3u16, 1u16, 0u16),
            r.padding_search == (2u16, 2u16, 1u16, 0u16),
            r.prompt_str@ == "> "@,
            r.placeholder_str@ == "search..."@,
            r.search_bar_height == 2,
    {
        Theme {
            prompt: TextStyle { fg: 0x768fa2, bold: true },
            placeholder: TextStyle { fg: 0x555555, bold: false },
            item: TextStyle { fg: 0x777777, bold: false },
            padding_list: (3, 3, 1, 0),
            padding_search: (2, 2, 1, 0),
            prompt_str: "> ".to_owned(),
            placeholder_str: "search...".to_owned(),
            search_bar_height: 2,
        }
    }
}

} // verus!
