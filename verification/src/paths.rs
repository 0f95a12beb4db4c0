//! Where the application keeps its files: path joining with the platform's
//! separator, and the paths of the configuration directory, its files and the
//! SSH files.

use vstd::prelude::*;
use crate::text::{chars_of, concat_chars, string_from_chars};

verus! {

/// `base` joined with `seg` as `Path::join` does with `/` separators: an
/// absolute `seg` replaces `base`, and a separator is added only when `base`
/// is not empty and does not already end with one.
pub open spec fn path_join(base: Seq<char>, seg: Seq<char>) -> Seq<char> {
    if seg.len() > 0 && seg[0] == '/' {
        seg
    } else if base.len() == 0 || base.last() == '/' {
        base + seg
    } else {
        base + seq!['/'] + seg
    }
}

/// Joins `seg` onto `base` (see `path_join`).
pub fn join_path(base: &str, seg: &str) -> (r: String)
    ensures
        r@ == path_join(base@, seg@),
{
    let b = chars_of(base);
    let s = chars_of(seg);
    if s.len() > 0 && s[0] == '/' {
        return string_from_chars(s.as_slice());
    }
    let mut v = b;
    if v.len() > 0 && v[v.len() - 1] != '/' {
        v.push('/');
    }
    concat_chars(&mut v, s.as_slice());
    string_from_chars(v.as_slice())
}

/// Whether `c` is a drive letter.
pub open spec fn is_drive_letter(c: char) -> bool {
    ('a' <= c && c <= 'z') || ('A' <= c && c <= 'Z')
}

/// `base` joined with a relative `seg` (one with no drive and no root) as
/// Windows joins paths: a `\` goes between them unless `base` is empty, ends
/// with `\` or `/`, or is a bare drive such as `C:`.
pub open spec fn windows_join(base: Seq<char>, seg: Seq<char>) -> Seq<char> {
    if base.len() == 0 || base.last() == '\\' || base.last() == '/' || (base.len() == 2 && base[1]
        == ':' && is_drive_letter(base[0])) {
        base + seg
    } else {
        base + seq!['\\'] + seg
    }
}

/// `base` joined with a relative `seg` on Windows (`windows`) or elsewhere.
pub open spec fn join_for(windows: bool, base: Seq<char>, seg: Seq<char>) -> Seq<char> {
    if windows {
        windows_join(base, seg)
    } else {
        path_join(base, seg)
    }
}

/// Joins a relative `seg` onto `base` (see `join_for`).
pub fn join_in(windows: bool, base: &str, seg: &str) -> (r: String)
    ensures
        r@ == join_for(windows, base@, seg@),
{
    if !windows {
        return join_path(base, seg);
    }
    let mut v = chars_of(base);
    let n = v.len();
    let glued = n == 0 || v[n - 1] == '\\' || v[n - 1] == '/' || (n == 2 && v[1] == ':' && (('a'
        <= v[0] && v[0] <= 'z') || ('A' <= v[0] && v[0] <= 'Z')));
    if !glued {
        v.push('\\');
    }
    let s = chars_of(seg);
    concat_chars(&mut v, s.as_slice());
    string_from_chars(v.as_slice())
}

/// The platform's main path separator, `std::path::MAIN_SEPARATOR`, which
/// its documentation gives as `\` on Windows and `/` on Unix; the claim is
/// that it is one of these two.
#[verifier::external_body]
fn main_separator() -> (c: char)
    ensures
        c == '/' || c == '\\',
{
    std::path::MAIN_SEPARATOR
}

/// Whether paths are Windows paths on this platform (its separator is `\`).
pub fn windows_paths() -> (w: bool) {
    main_separator() == '\\'
}

/// The user's home directory as the `dirs` crate finds it (from the
/// environment or the user database), as text.
///
/// Calls `dirs::home_dir` and converts the path with `to_string_lossy`.
/// Nothing is claimed about the result: it depends on the environment.
#[verifier::external_body]
pub(crate) fn user_home() -> Option<String> {
    match dirs::home_dir() {
        Some(p) => Some(p.to_string_lossy().to_string()),
        None => None,
    }
}

/// The platform's per-user configuration directory as the `dirs` crate finds
/// it, as text; on Windows this is the roaming application data folder
/// (`%APPDATA%`). It is only asked for on Windows.
///
/// Calls `dirs::config_dir` and converts the path with `to_string_lossy`.
/// Nothing is claimed about the result: it depends on the environment.
#[verifier::external_body]
fn app_data_dir() -> Option<String> {
    match dirs::config_dir() {
        Some(p) => Some(p.to_string_lossy().to_string()),
        None => None,
    }
}

/// The error when no home directory can be found.
pub open spec fn no_home_message() -> Seq<char> {
    "Cannot determine home directory"@
}

/// The error when Windows gives no application data folder.
pub open spec fn no_app_data_message() -> Seq<char> {
    "Cannot determine config directory"@
}

/// The views of an optional text.
pub open spec fn opt_view(o: Option<&str>) -> Option<Seq<char>> {
    match o {
        Some(s) => Some(s@),
        None => None,
    }
}

/// The view of an optional owned text.
pub open spec fn opt_string_view(o: Option<String>) -> Option<Seq<char>> {
    match o {
        Some(s) => Some(s@),
        None => None,
    }
}

/// The view of a text result.
pub open spec fn result_view(r: Result<String, String>) -> Result<Seq<char>, Seq<char>> {
    match r {
        Ok(s) => Ok(s@),
        Err(e) => Err(e@),
    }
}

/// The configuration directory: `%APPDATA%\kuf` on Windows (from the
/// application data folder `app_data`), `~/.config/kuf` elsewhere (from the
/// home directory `home`).
pub open spec fn config_dir_spec(
    windows: bool,
    home: Option<Seq<char>>,
    app_data: Option<Seq<char>>,
) -> Result<Seq<char>, Seq<char>> {
    if windows {
        match app_data {
            Some(a) => Ok(windows_join(a, "kuf"@)),
            None => Err(no_app_data_message()),
        }
    } else {
        match home {
            Some(h) => Ok(path_join(path_join(h, ".config"@), "kuf"@)),
            None => Err(no_home_message()),
        }
    }
}

/// A file in the configuration directory.
pub open spec fn config_file_spec(
    windows: bool,
    home: Option<Seq<char>>,
    app_data: Option<Seq<char>>,
    name: Seq<char>,
) -> Result<Seq<char>, Seq<char>> {
    match config_dir_spec(windows, home, app_data) {
        Ok(d) => Ok(join_for(windows, d, name)),
        Err(e) => Err(e),
    }
}

fn message(s: &str) -> (e: String)
    ensures
        e@ == s@,
{
    string_from_chars(chars_of(s).as_slice())
}

/// The configuration directory for the given platform, home directory and
/// application data folder (see `config_dir_spec`).
pub fn config_dir_in(windows: bool, home: Option<&str>, app_data: Option<&str>) -> (r: Result<
    String,
    String,
>)
    ensures
        result_view(r) == config_dir_spec(windows, opt_view(home), opt_view(app_data)),
{
    if windows {
        match app_data {
            Some(a) => Ok(join_in(true, a, "kuf")),
            None => Err(message("Cannot determine config directory")),
        }
    } else {
        match home {
            Some(h) => {
                let c = join_path(h, ".config");
                Ok(join_path(c.as_str(), "kuf"))
            },
            None => Err(message("Cannot determine home directory")),
        }
    }
}

/// The configuration directory of the current user on this platform.
pub fn config_dir() -> (r: Result<String, String>)
    ensures
        exists|w: bool, h: Option<Seq<char>>, a: Option<Seq<char>>|
            result_view(r) == config_dir_spec(w, h, a),
{
    let windows = windows_paths();
    if windows {
        let a = app_data_dir();
        let r = match &a {
            Some(x) => config_dir_in(true, None, Some(x.as_str())),
            None => config_dir_in(true, None, None),
        };
        assert(result_view(r) == config_dir_spec(true, None, opt_string_view(a)));
        r
    } else {
        let h = user_home();
        let r = match &h {
            Some(x) => config_dir_in(false, Some(x.as_str()), None),
            None => config_dir_in(false, None, None),
        };
        assert(result_view(r) == config_dir_spec(false, opt_string_view(h), None));
        r
    }
}

fn config_file(name: &str) -> (r: Result<String, String>)
    ensures
        exists|w: bool, h: Option<Seq<char>>, a: Option<Seq<char>>|
            result_view(r) == config_file_spec(w, h, a, name@),
{
    let windows = windows_paths();
    let h = if windows {
        None
    } else {
        user_home()
    };
    let a = if windows {
        app_data_dir()
    } else {
        None
    };
    let d = match (&h, &a) {
        (Some(x), Some(y)) => config_dir_in(windows, Some(x.as_str()), Some(y.as_str())),
        (Some(x), None) => config_dir_in(windows, Some(x.as_str()), None),
        (None, Some(y)) => config_dir_in(windows, None, Some(y.as_str())),
        (None, None) => config_dir_in(windows, None, None),
    };
    let ghost hv = opt_string_view(h);
    let ghost av = opt_string_view(a);
    assert(result_view(d) == config_dir_spec(windows, hv, av));
    match d {
        Ok(dir) => {
            let r = Ok(join_in(windows, dir.as_str(), name));
            assert(result_view(r) == config_file_spec(windows, hv, av, name@));
            r
        },
        Err(e) => {
            let r = Err(e);
            assert(result_view(r) == config_file_spec(windows, hv, av, name@));
            r
        },
    }
}

/// `settings.toml` in the configuration directory.
pub fn settings_path() -> (r: Result<String, String>)
    ensures
        exists|w: bool, h: Option<Seq<char>>, a: Option<Seq<char>>|
            result_view(r) == config_file_spec(w, h, a, "settings.toml"@),
{
    config_file("settings.toml")
}

/// `keybind.toml` in the configuration directory.
pub fn keybinds_path() -> (r: Result<String, String>)
    ensures
        exists|w: bool, h: Option<Seq<char>>, a: Option<Seq<char>>|
            result_view(r) == config_file_spec(w, h, a, "keybind.toml"@),
{
    config_file("keybind.toml")
}

/// `bookmarks.toml` in the configuration directory.
pub fn bookmarks_file_path() -> (r: Result<String, String>)
    ensures
        exists|w: bool, h: Option<Seq<char>>, a: Option<Seq<char>>|
            result_view(r) == config_file_spec(w, h, a, "bookmarks.toml"@),
{
    config_file("bookmarks.toml")
}

/// The home directory as a result: the directory, or the error when there
/// is none.
pub open spec fn home_text_spec(home: Option<Seq<char>>) -> Result<Seq<char>, Seq<char>> {
    match home {
        Some(h) => Ok(h),
        None => Err(no_home_message()),
    }
}

/// The current user's home directory, or an error when it cannot be found.
pub fn home_dir() -> (r: Result<String, String>)
    ensures
        exists|h: Option<Seq<char>>| result_view(r) == home_text_spec(h),
{
    let home = user_home();
    match home {
        Some(h) => {
            let r = Ok(h);
            assert(result_view(r) == home_text_spec(Some(h@)));
            r
        },
        None => {
            let r = Err(message("Cannot determine home directory"));
            assert(result_view(r) == home_text_spec(None));
            r
        },
    }
}

/// `~/.ssh/known_hosts` (joined as `.ssh`, then `known_hosts`).
pub open spec fn known_hosts_path_spec(windows: bool, home: Option<Seq<char>>) -> Result<
    Seq<char>,
    Seq<char>,
> {
    match home {
        Some(h) => Ok(join_for(windows, join_for(windows, h, ".ssh"@), "known_hosts"@)),
        None => Err(no_home_message()),
    }
}

/// `~/.ssh/config` (joined as the one segment `.ssh/config`).
pub open spec fn ssh_config_path_spec(windows: bool, home: Option<Seq<char>>) -> Result<
    Seq<char>,
    Seq<char>,
> {
    match home {
        Some(h) => Ok(join_for(windows, h, ".ssh/config"@)),
        None => Err(no_home_message()),
    }
}

/// The path of `~/.ssh/known_hosts` for the given platform and home directory.
pub fn known_hosts_path_in(windows: bool, home: Option<&str>) -> (r: Result<String, String>)
    ensures
        result_view(r) == known_hosts_path_spec(windows, opt_view(home)),
{
    match home {
        Some(h) => {
            let d = join_in(windows, h, ".ssh");
            Ok(join_in(windows, d.as_str(), "known_hosts"))
        },
        None => Err(message("Cannot determine home directory")),
    }
}

/// The path of `~/.ssh/config` for the given platform and home directory.
pub fn ssh_config_path_in(windows: bool, home: Option<&str>) -> (r: Result<String, String>)
    ensures
        result_view(r) == ssh_config_path_spec(windows, opt_view(home)),
{
    match home {
        Some(h) => Ok(join_in(windows, h, ".ssh/config")),
        None => Err(message("Cannot determine home directory")),
    }
}

/// The path of `~/.ssh/known_hosts` of the current user on this platform.
pub fn known_hosts_path() -> (r: Result<String, String>)
    ensures
        exists|w: bool, h: Option<Seq<char>>| result_view(r) == known_hosts_path_spec(w, h),
{
    let windows = windows_paths();
    let home = user_home();
    let r = match &home {
        Some(h) => known_hosts_path_in(windows, Some(h.as_str())),
        None => known_hosts_path_in(windows, None),
    };
    assert(result_view(r) == known_hosts_path_spec(windows, opt_string_view(home)));
    r
}

/// The path of `~/.ssh/config` of the current user on this platform.
pub fn ssh_config_path() -> (r: Result<String, String>)
    ensures
        exists|w: bool, h: Option<Seq<char>>| result_view(r) == ssh_config_path_spec(w, h),
{
    let windows = windows_paths();
    let home = user_home();
    let r = match &home {
        Some(h) => ssh_config_path_in(windows, Some(h.as_str())),
        None => ssh_config_path_in(windows, None),
    };
    assert(result_view(r) == ssh_config_path_spec(windows, opt_string_view(home)));
    r
}

} // verus!
