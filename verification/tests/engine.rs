use rofi_recent::arguments::Arguments;
use rofi_recent::listing::build_listing;
use rofi_recent::render::render_lines;
use rofi_recent::disambig::show_paths_when_needed;
use rofi_recent::file::{format_output, format_output_tail};
use rofi_recent::rank::sort_and_truncate_files;
use rofi_recent::recently_used_xbel::{
    Application, ApplicationParent, Bookmark, Info, Metadata, MimeType, RecentlyUsed,
};
use rofi_recent::store::{store_files, ProgramGroup};

fn bookmark(href: &str, modified: &str, mime: Option<&str>, apps: Vec<(&str, &str)>) -> Bookmark {
    Bookmark {
        href: href.to_string(),
        modified: modified.to_string(),
        info: Some(Info {
            metadata: Metadata {
                mime_type: mime.map(|m| MimeType { mimetype: m.to_string() }),
                app_parent: ApplicationParent {
                    apps: apps
                        .into_iter()
                        .map(|(n, e)| Application {
                            name: n.to_string(),
                            exec_command: e.to_string(),
                        })
                        .collect(),
                },
            },
        }),
    }
}

fn group<'a>(files: &'a [ProgramGroup], program: &str) -> &'a ProgramGroup {
    files
        .iter()
        .find(|g| g.program == program)
        .unwrap_or_else(|| panic!("no group for {}", program))
}

#[test]
fn two_programs_same_display_name_both_marked() {
    let ru = RecentlyUsed {
        bookmarks: vec![
            bookmark(
                "file:///home/u/notes.txt",
                "2",
                Some("text/plain"),
                vec![("Editor", "'alpha %u'")],
            ),
            bookmark(
                "file:///home/u/docs/notes.txt",
                "1",
                Some("text/plain"),
                vec![("Viewer", "'beta %u'")],
            ),
        ],
    };
    let mut files = store_files(&ru, false, &vec![], "/home/u");
    sort_and_truncate_files(&mut files, 5);
    show_paths_when_needed(&mut files, "/home/u");
    assert_eq!(files.len(), 2);
    let alpha = group(&files, "alpha");
    let beta = group(&files, "beta");
    assert_eq!(alpha.entries.len(), 1);
    assert_eq!(beta.entries.len(), 1);
    assert_eq!(alpha.entries[0].filename, "notes.txt");
    assert_eq!(beta.entries[0].filename, "notes.txt");
    assert!(alpha.entries[0].path_added);
    assert!(beta.entries[0].path_added);
    let base = format_output(
        "text-plain",
        "/home/u/notes.txt",
        "Editor",
        "'alpha %u'",
        "",
    );
    let expected = format!(" <i><small>~/</small></i> {}", base);
    assert_eq!(alpha.entries[0].output, expected);
    let base_beta = format_output(
        "text-plain",
        "/home/u/docs/notes.txt",
        "Viewer",
        "'beta %u'",
        "",
    );
    let expected_beta = format!(" <i><small>~/docs/</small></i> {}", base_beta);
    assert_eq!(beta.entries[0].output, expected_beta);
}

#[test]
fn same_program_same_path_merges_terms() {
    let ru = RecentlyUsed {
        bookmarks: vec![
            bookmark(
                "file:///home/u/n.txt",
                "2",
                Some("text/plain"),
                vec![("Editor", "'alpha %u'")],
            ),
            bookmark(
                "file:///home/u/n.txt",
                "1",
                Some("text/plain"),
                vec![("Viewer", "'alpha %u'")],
            ),
        ],
    };
    let files = store_files(&ru, false, &vec![], "/home/u");
    assert_eq!(files.len(), 1);
    let alpha = group(&files, "alpha");
    assert_eq!(alpha.entries.len(), 1);
    let base = format_output("text-plain", "/home/u/n.txt", "Editor", "'alpha %u'", "");
    let tail = format_output_tail("Viewer", "'alpha %u'", "");
    assert_eq!(alpha.entries[0].output, format!("{}{}", base, tail));
    assert_eq!(alpha.entries[0].date, "2");
    assert!(!alpha.entries[0].path_added);
}

#[test]
fn limit_two_keeps_two_most_recent_in_order() {
    let ru = RecentlyUsed {
        bookmarks: (0..5)
            .map(|i| {
                bookmark(
                    &format!("file:///home/u/f{}.txt", i),
                    &format!("{}", 5 - i),
                    Some("text/plain"),
                    vec![("Editor", "'alpha %u'")],
                )
            })
            .collect(),
    };
    let mut files = store_files(&ru, false, &vec![], "/home/u");
    sort_and_truncate_files(&mut files, 2);
    let alpha = group(&files, "alpha");
    assert_eq!(alpha.entries.len(), 2);
    assert_eq!(alpha.entries[0].date, "5");
    assert_eq!(alpha.entries[1].date, "4");
    assert_eq!(alpha.entries[0].path, "/home/u/f0.txt");
    assert_eq!(alpha.entries[1].path, "/home/u/f1.txt");
}

#[test]
fn limit_zero_keeps_everything() {
    let ru = RecentlyUsed {
        bookmarks: (0..5)
            .map(|i| {
                bookmark(
                    &format!("file:///home/u/f{}.txt", i),
                    &format!("{}", 5 - i),
                    Some("text/plain"),
                    vec![("Editor", "'alpha %u'")],
                )
            })
            .collect(),
    };
    let mut files = store_files(&ru, false, &vec![], "/home/u");
    sort_and_truncate_files(&mut files, 0);
    assert_eq!(group(&files, "alpha").entries.len(), 5);
}

#[test]
fn ranking_sorts_descending_and_keeps_tie_order() {
    let ru = RecentlyUsed {
        bookmarks: vec![
            bookmark(
                "file:///h/a.txt",
                "2",
                Some("text/plain"),
                vec![("E", "'alpha %u'")],
            ),
            bookmark(
                "file:///h/b.txt",
                "1",
                Some("text/plain"),
                vec![("E", "'alpha %u'")],
            ),
            bookmark(
                "file:///h/c.txt",
                "2",
                Some("text/plain"),
                vec![("E", "'alpha %u'")],
            ),
        ],
    };
    let mut files = store_files(&ru, false, &vec![], "/h");
    sort_and_truncate_files(&mut files, 0);
    let alpha = group(&files, "alpha");
    let paths: Vec<&str> = alpha.entries.iter().map(|e| e.path.as_str()).collect();
    assert_eq!(paths, vec!["/h/a.txt", "/h/c.txt", "/h/b.txt"]);
}

#[test]
fn excluded_program_is_skipped() {
    let ru = RecentlyUsed {
        bookmarks: vec![bookmark(
            "file:///h/a.txt",
            "1",
            Some("text/plain"),
            vec![("E", "'alpha %u'"), ("V", "'beta %u'")],
        )],
    };
    let args = Arguments {
        limit: 5,
        exclude: "alpha gamma".to_string(),
        show_all_paths: false,
        command: vec![],
    };
    let excluded = rofi_recent::text::split_spaces(&args.exclude);
    let files = store_files(&ru, false, &excluded, "/h");
    assert_eq!(files.len(), 1);
    assert_eq!(files[0].program, "beta");
}

#[test]
fn malformed_records_are_skipped_silently() {
    let ru = RecentlyUsed {
        bookmarks: vec![
            // no metadata at all
            Bookmark {
                href: "file:///h/a.txt".to_string(),
                modified: "1".to_string(),
                info: None,
            },
            // launch command with no usable token
            bookmark("file:///h/b.txt", "1", Some("text/plain"), vec![("E", "'")]),
            // not a URL
            bookmark("h/c.txt", "1", Some("text/plain"), vec![("E", "'alpha %u'")]),
            // not a local file URL
            bookmark(
                "https://example.com/d.txt",
                "1",
                Some("text/plain"),
                vec![("E", "'alpha %u'")],
            ),
            // one good record
            bookmark(
                "file:///h/e.txt",
                "1",
                Some("text/plain"),
                vec![("E", "'alpha %u'")],
            ),
        ],
    };
    let files = store_files(&ru, false, &vec![], "/h");
    assert_eq!(files.len(), 1);
    let alpha = group(&files, "alpha");
    assert_eq!(alpha.entries.len(), 1);
    assert_eq!(alpha.entries[0].path, "/h/e.txt");
}

#[test]
fn missing_mime_type_defaults_to_generic() {
    let ru = RecentlyUsed {
        bookmarks: vec![bookmark(
            "file:///h/a.txt",
            "1",
            None,
            vec![("E", "'alpha %u'")],
        )],
    };
    let files = store_files(&ru, false, &vec![], "/h");
    let alpha = group(&files, "alpha");
    let base = format_output(
        "application-x-generic",
        "/h/a.txt",
        "E",
        "'alpha %u'",
        "generic",
    );
    assert_eq!(alpha.entries[0].output, base);
}

#[test]
fn show_all_paths_marks_every_entry() {
    let ru = RecentlyUsed {
        bookmarks: vec![bookmark(
            "file:///home/u/solo.txt",
            "1",
            Some("text/plain"),
            vec![("E", "'alpha %u'")],
        )],
    };
    let files = store_files(&ru, true, &vec![], "/home/u");
    let alpha = group(&files, "alpha");
    assert!(alpha.entries[0].path_added);
    let base = format_output("text-plain", "/home/u/solo.txt", "E", "'alpha %u'", "");
    assert_eq!(
        alpha.entries[0].output,
        format!(" <i><small>~/</small></i> {}", base)
    );
}

#[test]
fn unique_display_names_stay_unmarked() {
    let ru = RecentlyUsed {
        bookmarks: vec![
            bookmark(
                "file:///h/a.txt",
                "2",
                Some("text/plain"),
                vec![("E", "'alpha %u'")],
            ),
            bookmark(
                "file:///h/b.txt",
                "1",
                Some("text/plain"),
                vec![("V", "'beta %u'")],
            ),
        ],
    };
    let mut files = store_files(&ru, false, &vec![], "/h");
    sort_and_truncate_files(&mut files, 5);
    show_paths_when_needed(&mut files, "/h");
    assert!(!group(&files, "alpha").entries[0].path_added);
    assert!(!group(&files, "beta").entries[0].path_added);
}

#[test]
fn three_way_collision_marks_all_three() {
    let ru = RecentlyUsed {
        bookmarks: vec![
            bookmark(
                "file:///h/x/n.txt",
                "3",
                Some("text/plain"),
                vec![("A", "'alpha %u'")],
            ),
            bookmark(
                "file:///h/y/n.txt",
                "2",
                Some("text/plain"),
                vec![("B", "'beta %u'")],
            ),
            bookmark(
                "file:///h/z/n.txt",
                "1",
                Some("text/plain"),
                vec![("C", "'gamma %u'")],
            ),
        ],
    };
    let mut files = store_files(&ru, false, &vec![], "/h");
    sort_and_truncate_files(&mut files, 5);
    show_paths_when_needed(&mut files, "/h");
    for program in ["alpha", "beta", "gamma"] {
        assert!(group(&files, program).entries[0].path_added, "{}", program);
    }
}

#[test]
fn build_listing_runs_the_whole_pipeline() {
    let ru = RecentlyUsed {
        bookmarks: vec![
            bookmark(
                "file:///home/u/b.txt",
                "1",
                Some("text/plain"),
                vec![("Editor", "'alpha %u'")],
            ),
            bookmark(
                "file:///home/u/a.txt",
                "2",
                Some("text/plain"),
                vec![("Editor", "'alpha %u'")],
            ),
        ],
    };
    let files = build_listing(&ru, 5, false, &vec![], "/home/u");
    assert_eq!(files.len(), 1);
    let alpha = group(&files, "alpha");
    assert_eq!(alpha.entries[0].filename, "a.txt");
    assert_eq!(alpha.entries[1].filename, "b.txt");
    assert!(!alpha.entries[0].path_added);
    let lines = render_lines(&files);
    let base_a = format_output("text-plain", "/home/u/a.txt", "Editor", "'alpha %u'", "");
    assert_eq!(lines[0], format!("alpha a.txt {}", base_a));
}

#[test]
fn trailing_slash_location_gets_directory_name() {
    let ru = RecentlyUsed {
        bookmarks: vec![bookmark(
            "file:///home/u/photos/",
            "1",
            Some("inode/directory"),
            vec![("Files", "'nautilus %u'")],
        )],
    };
    let files = store_files(&ru, false, &vec![], "/home/u");
    let g = group(&files, "nautilus");
    assert_eq!(g.entries[0].filename, "photos");
}

#[test]
fn collision_within_one_group_is_marked_too() {
    let ru = RecentlyUsed {
        bookmarks: vec![
            bookmark(
                "file:///h/x/n.txt",
                "2",
                Some("text/plain"),
                vec![("A", "'alpha %u'")],
            ),
            bookmark(
                "file:///h/y/n.txt",
                "1",
                Some("text/plain"),
                vec![("A", "'alpha %u'")],
            ),
        ],
    };
    let mut files = store_files(&ru, false, &vec![], "/h");
    sort_and_truncate_files(&mut files, 5);
    show_paths_when_needed(&mut files, "/h");
    let alpha = group(&files, "alpha");
    assert!(alpha.entries[0].path_added);
    assert!(alpha.entries[1].path_added);
}
