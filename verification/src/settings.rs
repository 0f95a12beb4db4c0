//! User settings that the library owns (display, navigation, sorting) and
//! the default key bindings.

use vstd::prelude::*;
use crate::text::{chars_of, string_from_chars};

verus! {

/// How the panes look.
pub struct DisplaySettings {
    pub font_size: u32,
    pub row_height: u32,
    pub show_hidden: bool,
    pub theme: String,
    pub columns: Vec<String>,
    pub rename_without_extension: bool,
}

/// The directories the panes start in.
pub struct NavigationSettings {
    pub left_dir: String,
    pub right_dir: String,
}

/// How listings are sorted.
pub struct SortSettings {
    pub dirs_first: bool,
    pub case_sensitive: bool,
}

fn text(s: &str) -> (r: String)
    ensures
        r@ == s@,
{
    string_from_chars(chars_of(s).as_slice())
}

impl DisplaySettings {
    /// Font size 13, row height 22, hidden files shown, the `tokyo-night`
    /// theme, the extension, size, date and permissions columns, and renaming
    /// of the whole name.
    pub fn defaults() -> (d: Self)
        ensures
            d.font_size == 13,
            d.row_height == 22,
            d.show_hidden,
            d.theme@ == "tokyo-night"@,
            d.columns@.map_values(|c: String| c@) == seq![
                "extension"@,
                "size"@,
                "date"@,
                "permissions"@,
            ],
            !d.rename_without_extension,
    {
        let mut columns: Vec<String> = Vec::new();
        columns.push(text("extension"));
        columns.push(text("size"));
        columns.push(text("date"));
        columns.push(text("permissions"));
        assert(columns@.map_values(|c: String| c@) =~= seq![
            "extension"@,
            "size"@,
            "date"@,
            "permissions"@,
        ]);
        DisplaySettings {
            font_size: 13,
            row_height: 22,
            show_hidden: true,
            theme: text("tokyo-night"),
            columns,
            rename_without_extension: false,
        }
    }
}

/// The default key bindings, as the text of a TOML `[keybind]` table that
/// maps key combinations to actions.
pub open spec fn default_keybinds_text() -> Seq<char> {
    "[keybind]
\"ArrowUp\" = \"cursor_up\"
\"ArrowDown\" = \"cursor_down\"
\"Home\" = \"cursor_top\"
\"End\" = \"cursor_bottom\"
\"Enter\" = \"enter\"
\"Shift+Enter\" = \"preview\"
\"Backspace\" = \"parent_dir\"
\"Tab\" = \"switch_pane\"
\" \" = \"toggle_select\"
\"Insert\" = \"toggle_select\"
\"Delete\" = \"delete\"
\"F2\" = \"rename\"
\"F5\" = \"copy\"
\"F6\" = \"move\"
\"F7\" = \"new_folder\"
\"F8\" = \"delete\"
\"c\" = \"copy\"
\"m\" = \"move\"
\"d\" = \"delete\"
\"r\" = \"rename\"
\"k\" = \"new_folder\"
\"f\" = \"bookmark_list\"
\"Ctrl+a\" = \"select_all\"
\"Ctrl+r\" = \"refresh\"
\"Ctrl+d\" = \"bookmark_add\"
\"Alt+ArrowLeft\" = \"history_back\"
\"Alt+ArrowRight\" = \"history_forward\"
\"Alt+1\" = \"left_pane\"
\"Alt+2\" = \"right_pane\"
\"o\" = \"sync_to_other\"
\"Shift+O\" = \"sync_from_other\"
\"\\\\\" = \"copy_to_other\"
\"Ctrl+\\\\\" = \"move_to_other\"
\"Ctrl+t\" = \"tab_new\"
\"Ctrl+w\" = \"tab_close\"
\"Ctrl+Tab\" = \"tab_next\"
\"Ctrl+Shift+Tab\" = \"tab_prev\"
\"e\" = \"open_in_editor\"
\"F3\" = \"preview\"
\"x\" = \"open_file\"
\"Escape\" = \"clear_selection\"
"@
}

/// The default key bindings file.
pub fn default_keybinds_toml() -> (s: String)
    ensures
        s@ == default_keybinds_text(),
{
    text(
        "[keybind]
\"ArrowUp\" = \"cursor_up\"
\"ArrowDown\" = \"cursor_down\"
\"Home\" = \"cursor_top\"
\"End\" = \"cursor_bottom\"
\"Enter\" = \"enter\"
\"Shift+Enter\" = \"preview\"
\"Backspace\" = \"parent_dir\"
\"Tab\" = \"switch_pane\"
\" \" = \"toggle_select\"
\"Insert\" = \"toggle_select\"
\"Delete\" = \"delete\"
\"F2\" = \"rename\"
\"F5\" = \"copy\"
\"F6\" = \"move\"
\"F7\" = \"new_folder\"
\"F8\" = \"delete\"
\"c\" = \"copy\"
\"m\" = \"move\"
\"d\" = \"delete\"
\"r\" = \"rename\"
\"k\" = \"new_folder\"
\"f\" = \"bookmark_list\"
\"Ctrl+a\" = \"select_all\"
\"Ctrl+r\" = \"refresh\"
\"Ctrl+d\" = \"bookmark_add\"
\"Alt+ArrowLeft\" = \"history_back\"
\"Alt+ArrowRight\" = \"history_forward\"
\"Alt+1\" = \"left_pane\"
\"Alt+2\" = \"right_pane\"
\"o\" = \"sync_to_other\"
\"Shift+O\" = \"sync_from_other\"
\"\\\\\" = \"copy_to_other\"
\"Ctrl+\\\\\" = \"move_to_other\"
\"Ctrl+t\" = \"tab_new\"
\"Ctrl+w\" = \"tab_close\"
\"Ctrl+Tab\" = \"tab_next\"
\"Ctrl+Shift+Tab\" = \"tab_prev\"
\"e\" = \"open_in_editor\"
\"F3\" = \"preview\"
\"x\" = \"open_file\"
\"Escape\" = \"clear_selection\"
",
    )
}

} // verus!
