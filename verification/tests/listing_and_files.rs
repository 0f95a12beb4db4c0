use kuf::bookmarks::Bookmarks;
use kuf::fs_ops::{
    check_text_size, check_text_target, copied_child, copy_action, delete_action, remote_child,
    remote_item, removal_child, CopyAction, DeleteAction, MAX_TEXT_BYTES,
};
use kuf::listing::{entry_info, format_permissions, keep_remote_entry, listing, sort_listing, FileInfo, PermissionBits};
use kuf::paths::{
    bookmarks_file_path, config_dir, config_dir_in, home_dir, join_in, join_path, keybinds_path,
    known_hosts_path, known_hosts_path_in, settings_path, ssh_config_path, ssh_config_path_in,
    windows_paths,
};
use kuf::settings::{default_keybinds_toml, DisplaySettings, NavigationSettings, SortSettings};

fn file(name: &str, is_dir: bool) -> FileInfo {
    entry_info(name.to_string(), is_dir, 10, None, false, String::new())
}

#[test]
fn entry_fields() {
    let f = entry_info("Report.PDF".to_string(), false, 1234, Some("2024-01-02 03:04".to_string()), true, "rw-r--r--".to_string());
    assert_eq!(f.extension, "pdf");
    assert_eq!(f.size, 1234);
    assert!(!f.is_hidden);
    assert!(f.is_symlink);
    assert_eq!(f.modified.as_deref(), Some("2024-01-02 03:04"));
    assert_eq!(f.permissions, "rw-r--r--");
    let d = entry_info("Dir.D".to_string(), true, 4096, None, false, String::new());
    assert_eq!(d.extension, "");
    assert_eq!(d.size, 0);
    assert_eq!(file(".bashrc", false).extension, "");
    assert!(file(".bashrc", false).is_hidden);
    assert_eq!(file(".config.TOML", false).extension, "toml");
    assert_eq!(file("archive.tar.GZ", false).extension, "gz");
    assert_eq!(file("noext", false).extension, "");
    assert_eq!(file("trailing.", false).extension, "");
    assert_eq!(file("..", false).extension, "");
    assert_eq!(file("...", false).extension, "");
    assert_eq!(file("ÉTÉ.ÀB", false).extension, "àb");
}

#[test]
fn extension_of_paths() {
    assert_eq!(file("dir/file.TXT", false).extension, "txt");
    assert_eq!(file("x.tar/", false).extension, "tar");
    assert_eq!(file("x.tar/.", false).extension, "tar");
    assert_eq!(file("a.b/..", false).extension, "");
    assert_eq!(file("/", false).extension, "");
    assert_eq!(file(".", false).extension, "");
    assert_eq!(file("", false).extension, "");
    assert_eq!(file("dir.d/.profile", false).extension, "");
}

#[test]
fn remote_names() {
    assert!(!keep_remote_entry(""));
    assert!(!keep_remote_entry("."));
    assert!(keep_remote_entry(".."));
    assert!(keep_remote_entry(".hidden"));
    assert!(removal_child(""));
    assert!(!removal_child("."));
    assert!(!removal_child(".."));
    assert!(removal_child("..."));
    assert!(!copied_child(""));
    assert!(!copied_child(".."));
    assert!(copied_child("a"));
}

#[test]
fn listing_order() {
    let entries = vec![
        file("b.txt", false),
        file("Zeta", true),
        file("a.txt", false),
        file("alpha", true),
        file("B.txt", false),
        file("_x", false),
    ];
    let out = listing(entries);
    let names: Vec<&str> = out.iter().map(|f| f.name.as_str()).collect();
    // `..` first, directories, then files; names compared lower-cased, and
    // equal lower-cased names keep their order
    assert_eq!(names, vec!["..", "alpha", "Zeta", "_x", "a.txt", "b.txt", "B.txt"]);
    assert!(out[0].is_dir);
    assert_eq!(out[0].size, 0);
    assert_eq!(out[0].modified, None);
    assert_eq!(out[0].permissions, "");
    let out = listing(Vec::new());
    assert_eq!(out.len(), 1);
    assert_eq!(out[0].name, "..");
}

#[test]
fn sorting_is_stable_and_keeps_everything() {
    let entries = vec![file("B", false), file("b", false), file("a", false), file("B", true)];
    let out = sort_listing(entries);
    let names: Vec<(&str, bool)> = out.iter().map(|f| (f.name.as_str(), f.is_dir)).collect();
    assert_eq!(names, vec![("B", true), ("a", false), ("B", false), ("b", false)]);
}

#[test]
fn permission_text() {
    let p = PermissionBits {
        owner_read: true, owner_write: true, owner_exec: false,
        group_read: true, group_write: false, group_exec: true,
        other_read: false, other_write: false, other_exec: true,
    };
    assert_eq!(format_permissions(&p), "rw-r-x--x");
    let none = PermissionBits {
        owner_read: false, owner_write: false, owner_exec: false,
        group_read: false, group_write: false, group_exec: false,
        other_read: false, other_write: false, other_exec: false,
    };
    assert_eq!(format_permissions(&none), "---------");
}

#[test]
fn bookmark_list_operations() {
    let mut b = Bookmarks::new(vec!["/a".to_string()]);
    b.add("/b".to_string());
    b.add("/a".to_string());
    b.add("/b".to_string());
    assert_eq!(b.list(), vec!["/a".to_string(), "/b".to_string()]);
    assert!(b.contains("/b"));
    b.remove("/a");
    assert_eq!(b.list(), vec!["/b".to_string()]);
    b.remove("/zzz");
    assert_eq!(b.list(), vec!["/b".to_string()]);
    let mut d = Bookmarks::new(vec!["/x".to_string(), "/y".to_string(), "/x".to_string()]);
    d.remove("/x");
    assert_eq!(d.list(), vec!["/y".to_string()]);
    d.add("/z".to_string());
    d.remove("/z");
    assert_eq!(d.list(), vec!["/y".to_string()]);
}

#[test]
fn path_joining() {
    assert_eq!(join_path("/home/u", ".config"), "/home/u/.config");
    assert_eq!(join_path("/home/u/", "x"), "/home/u/x");
    assert_eq!(join_path("", "x"), "x");
    assert_eq!(join_path("/home/u", "/etc"), "/etc");
    assert_eq!(config_dir_in(false, Some("/home/u"), None), Ok("/home/u/.config/kuf".to_string()));
    assert_eq!(config_dir_in(false, Some("/"), Some("/ignored")), Ok("/.config/kuf".to_string()));
    assert_eq!(config_dir_in(false, None, Some("/x")), Err("Cannot determine home directory".to_string()));
}

#[test]
fn windows_configuration_directory() {
    let roaming = "C:\\Users\\u\\AppData\\Roaming";
    assert_eq!(
        config_dir_in(true, Some("C:\\Users\\u"), Some(roaming)),
        Ok("C:\\Users\\u\\AppData\\Roaming\\kuf".to_string())
    );
    assert_eq!(config_dir_in(true, None, Some("D:\\data\\")), Ok("D:\\data\\kuf".to_string()));
    assert_eq!(
        config_dir_in(true, Some("C:\\Users\\u"), None),
        Err("Cannot determine config directory".to_string())
    );
    assert_eq!(join_in(true, "C:", "kuf"), "C:kuf");
    assert_eq!(join_in(true, "C:\\a/", "b"), "C:\\a/b");
    assert_eq!(join_in(true, "", "b"), "b");
    assert_eq!(join_in(true, "C:\\Users\\u", ".ssh/config"), "C:\\Users\\u\\.ssh/config");
    assert_eq!(join_in(false, "/home/u", ".ssh"), "/home/u/.ssh");
}

#[test]
fn ssh_file_paths() {
    assert_eq!(known_hosts_path_in(false, Some("/home/u")), Ok("/home/u/.ssh/known_hosts".to_string()));
    assert_eq!(ssh_config_path_in(false, Some("/home/u/")), Ok("/home/u/.ssh/config".to_string()));
    assert_eq!(
        known_hosts_path_in(true, Some("C:\\Users\\u")),
        Ok("C:\\Users\\u\\.ssh\\known_hosts".to_string())
    );
    assert_eq!(ssh_config_path_in(true, Some("C:\\Users\\u")), Ok("C:\\Users\\u\\.ssh/config".to_string()));
    assert_eq!(known_hosts_path_in(true, None), Err("Cannot determine home directory".to_string()));
    assert_eq!(ssh_config_path_in(false, None), Err("Cannot determine home directory".to_string()));
}

#[test]
fn user_paths() {
    match home_dir() {
        Ok(h) => {
            let w = windows_paths();
            assert_eq!(w, std::path::MAIN_SEPARATOR == '\\');
            if !w {
                let c = config_dir().unwrap();
                assert_eq!(c, join_path(&join_path(&h, ".config"), "kuf"));
                assert_eq!(settings_path().unwrap(), join_path(&c, "settings.toml"));
                assert_eq!(keybinds_path().unwrap(), join_path(&c, "keybind.toml"));
                assert_eq!(bookmarks_file_path().unwrap(), join_path(&c, "bookmarks.toml"));
            }
            assert_eq!(known_hosts_path().unwrap(), join_in(w, &join_in(w, &h, ".ssh"), "known_hosts"));
            assert_eq!(ssh_config_path().unwrap(), join_in(w, &h, ".ssh/config"));
        }
        Err(e) => {
            assert_eq!(e, "Cannot determine home directory");
            assert!(known_hosts_path().is_err());
        }
    }
}

#[test]
fn display_defaults() {
    let d = DisplaySettings::defaults();
    assert_eq!(d.font_size, 13);
    assert_eq!(d.row_height, 22);
    assert!(d.show_hidden);
    assert_eq!(d.theme, "tokyo-night");
    assert_eq!(d.columns, vec!["extension", "size", "date", "permissions"]);
    assert!(!d.rename_without_extension);
    let n = NavigationSettings { left_dir: String::new(), right_dir: "/tmp".to_string() };
    assert_eq!(n.right_dir, "/tmp");
    let s = SortSettings { dirs_first: true, case_sensitive: false };
    assert!(s.dirs_first && !s.case_sensitive);
}

#[test]
fn default_keybinds() {
    let t = default_keybinds_toml();
    assert!(t.starts_with("[keybind]\n\"ArrowUp\" = \"cursor_up\"\n"));
    assert!(t.contains("\"\\\\\" = \"copy_to_other\"\n"));
    assert!(t.contains("\"Ctrl+\\\\\" = \"move_to_other\"\n"));
    assert!(t.ends_with("\"Escape\" = \"clear_selection\"\n"));
    assert_eq!(t.lines().count(), 42);
}

#[test]
fn removal_and_copy_decisions() {
    assert!(delete_action(true, true, true) == DeleteAction::RemoveLinkDir);
    assert!(delete_action(true, true, false) == DeleteAction::RemoveLinkFile);
    assert!(delete_action(true, false, true) == DeleteAction::RemoveLinkFile);
    assert!(delete_action(true, false, false) == DeleteAction::RemoveLinkFile);
    assert!(delete_action(false, true, false) == DeleteAction::RemoveTree);
    assert!(delete_action(false, true, true) == DeleteAction::RemoveTree);
    assert!(delete_action(false, false, false) == DeleteAction::RemoveFile);
    assert!(copy_action(true, true) == CopyAction::Link);
    assert!(copy_action(false, true) == CopyAction::Tree);
    assert!(copy_action(false, false) == CopyAction::File);
}

#[test]
fn remote_paths() {
    assert_eq!(remote_item("/srv", "a"), "/srv/a");
    assert_eq!(remote_item("/srv/", "a"), "/srv//a");
    assert_eq!(remote_child("/srv", "a"), "/srv/a");
    assert_eq!(remote_child("/srv/", "a"), "/srv/a");
    assert_eq!(remote_child("", "a"), "/a");
}

#[test]
fn text_preview_limits() {
    assert_eq!(MAX_TEXT_BYTES, 2 * 1024 * 1024);
    assert_eq!(check_text_size(2 * 1024 * 1024), Ok(()));
    assert_eq!(check_text_size(0), Ok(()));
    assert_eq!(check_text_size(2 * 1024 * 1024 + 1), Err("File too large (2097153 bytes, max 2 MB)".to_string()));
    assert_eq!(check_text_target(false, false), Err("File not found".to_string()));
    assert_eq!(check_text_target(false, true), Err("File not found".to_string()));
    assert_eq!(check_text_target(true, true), Err("Is a directory".to_string()));
    assert_eq!(check_text_target(true, false), Ok(()));
}
