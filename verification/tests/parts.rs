use rofi_recent::disambig::need_path;
use rofi_recent::file::{file_name_of, format_output, format_output_tail, mime_suffix, File};
use rofi_recent::render::{header_line, render_line, render_lines};
use rofi_recent::store::{extract_program, ProgramGroup};
use rofi_recent::text::{find_sub, split_spaces, str_has_prefix, str_lex_le, vec_contains_string};

fn entry(path: &str, filename: &str, output: &str, date: &str) -> File {
    File {
        path: path.to_string(),
        path_added: false,
        filename: filename.to_string(),
        output: output.to_string(),
        date: date.to_string(),
    }
}

#[test]
fn extract_program_takes_first_token_after_marker() {
    assert_eq!(extract_program("'gedit %u'"), Some("gedit".to_string()));
    assert_eq!(extract_program("'vlc'"), Some("vlc'".to_string()));
    assert_eq!(extract_program("xterm -e top"), Some("term".to_string()));
}

#[test]
fn extract_program_rejects_unusable_commands() {
    assert_eq!(extract_program(""), None);
    assert_eq!(extract_program("'"), None);
    assert_eq!(extract_program("' gedit'"), None);
}

#[test]
fn mime_suffix_takes_what_follows_the_marker() {
    assert_eq!(mime_suffix("application/x-gnumeric"), "gnumeric");
    assert_eq!(mime_suffix("application/x-generic"), "generic");
    assert_eq!(mime_suffix("text/plain"), "");
}

#[test]
fn format_output_embeds_icon_path_and_terms() {
    assert_eq!(
        format_output("text-plain", "/a/b", "Name", "'cmd'", "x"),
        "\u{0}icon\u{1f}text-plain\u{1f}info\u{1f}/a/b\u{1f}meta\u{1f} Name 'cmd' x"
    );
    assert_eq!(format_output_tail("Name", "'cmd'", "x"), " Name 'cmd' x");
}

#[test]
fn file_name_takes_last_nonempty_segment() {
    assert_eq!(file_name_of("/a/b.txt"), "b.txt");
    assert_eq!(file_name_of("/a/b/"), "b");
    assert_eq!(file_name_of("/"), "/");
    assert_eq!(file_name_of("///"), "/");
    assert_eq!(file_name_of("plain"), "plain");
}

#[test]
fn add_path_prepends_escaped_parent_fragment() {
    let mut f = entry("/home/a&b/f.txt", "f.txt", "base", "1");
    f.add_path("");
    assert!(f.path_added);
    assert_eq!(f.output, " <i><small>/home/a&amp;b/</small></i> base");
}

#[test]
fn add_path_decodes_percent_escapes() {
    let mut f = entry("/home/u%20x/f.txt", "f.txt", "base", "1");
    f.add_path("");
    assert_eq!(f.output, " <i><small>/home/u x/</small></i> base");
}

#[test]
fn add_path_abbreviates_home_to_tilde() {
    let mut f = entry("/home/u/docs/f.txt", "f.txt", "base", "1");
    f.add_path("/home/u");
    assert_eq!(f.output, " <i><small>~/docs/</small></i> base");
}

#[test]
fn add_path_twice_is_a_no_op() {
    let mut f = entry("/home/u/docs/f.txt", "f.txt", "base", "1");
    f.add_path("/home/u");
    let once = f.output.clone();
    f.add_path("/home/u");
    assert!(f.path_added);
    assert_eq!(f.output, once);
}

#[test]
fn need_path_lists_each_collision_once_in_combination_order() {
    let files = vec![
        ProgramGroup {
            program: "alpha".to_string(),
            entries: vec![
                entry("/x/n.txt", "n.txt", "A", "3"),
                entry("/y/n.txt", "n.txt", "B", "2"),
            ],
        },
        ProgramGroup {
            program: "beta".to_string(),
            entries: vec![entry("/z/n.txt", "n.txt", "C", "1")],
        },
    ];
    let pairs = need_path(&files);
    assert_eq!(
        pairs,
        vec![((0, 0), (0, 1)), ((0, 0), (1, 0)), ((0, 1), (1, 0))]
    );
}

#[test]
fn header_line_enables_markup_rows() {
    assert_eq!(header_line(), "\u{0}markup-rows\u{1f}true\n");
}

#[test]
fn render_line_joins_program_name_and_output() {
    let f = entry("/a/b.txt", "b.txt", "OUT", "1");
    assert_eq!(render_line("alpha", &f), "alpha b.txt OUT");
}

#[test]
fn render_lines_walks_groups_in_order() {
    let files = vec![
        ProgramGroup {
            program: "alpha".to_string(),
            entries: vec![entry("/a", "a", "A", "1"), entry("/b", "b", "B", "1")],
        },
        ProgramGroup {
            program: "beta".to_string(),
            entries: vec![entry("/c", "c", "C", "1")],
        },
    ];
    assert_eq!(render_lines(&files), vec!["alpha a A", "alpha b B", "beta c C"]);
}

#[test]
fn split_spaces_keeps_empty_pieces() {
    assert_eq!(split_spaces("a b"), vec!["a", "b"]);
    assert_eq!(split_spaces(""), vec![""]);
    assert_eq!(split_spaces("a  b"), vec!["a", "", "b"]);
}

#[test]
fn vec_contains_string_finds_members() {
    let v = vec!["alpha".to_string(), "beta".to_string()];
    assert!(vec_contains_string(&v, &"beta".to_string()));
    assert!(!vec_contains_string(&v, &"gamma".to_string()));
}

#[test]
fn lexicographic_compare_orders_timestamps() {
    assert!(str_lex_le("2023-01-01T00:00:00Z", "2024-01-01T00:00:00Z"));
    assert!(!str_lex_le("2024-01-01T00:00:00Z", "2023-01-01T00:00:00Z"));
    assert!(str_lex_le("abc", "abc"));
    assert!(str_lex_le("ab", "abc"));
}

#[test]
fn find_sub_locates_first_occurrence() {
    assert_eq!(find_sub("application/x-generic", "application/x-"), Some(0));
    assert_eq!(find_sub("abcabc", "bc"), Some(1));
    assert_eq!(find_sub("abc", "zz"), None);
}

#[test]
fn str_has_prefix_checks_the_front() {
    assert!(str_has_prefix("/home/u/docs", "/home/u"));
    assert!(!str_has_prefix("/opt/u", "/home"));
}
