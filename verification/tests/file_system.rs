use source_select::cli::parse_args;
use source_select::config::Config;
use source_select::file_system::{
    char_is_whitespace, get_file_structure, is_typescript_file, read_gitignore, should_ignore,
};

fn strings(items: &[&str]) -> Vec<String> {
    items.iter().map(|s| s.to_string()).collect()
}

#[test]
fn paths_with_a_pattern_in_them_are_ignored() {
    let patterns = strings(&["dist", "*.log"]);
    assert!(should_ignore("/p/dist/a.ts", &patterns));
    assert!(should_ignore("/p/redistribute/a.ts", &patterns));
    assert!(should_ignore("/p/a*.log", &patterns));
    assert!(!should_ignore("/p/a.log", &patterns));
    assert!(!should_ignore("/p/src/a.ts", &patterns));
}

#[test]
fn dependency_and_repository_directories_are_always_ignored() {
    let none: Vec<String> = Vec::new();
    assert!(should_ignore("/p/node_modules/x/index.ts", &none));
    assert!(should_ignore("/p/my_node_modules_copy/a.ts", &none));
    assert!(should_ignore("/p/.git/hooks/a.ts", &none));
    assert!(!should_ignore("/p/.git", &none));
    assert!(!should_ignore("/p/.github/a.ts", &none));
    assert!(!should_ignore("/p/src/a.ts", &none));
    assert!(!should_ignore("", &none));
}

#[test]
fn typescript_files_are_known_by_their_extension() {
    assert!(is_typescript_file("/p/a.ts"));
    assert!(is_typescript_file("/p/a.tsx"));
    assert!(is_typescript_file("a.d.ts"));
    assert!(is_typescript_file("/p/.a.ts"));
    assert!(!is_typescript_file("/p/a.js"));
    assert!(!is_typescript_file("/p/a.ts.bak"));
    assert!(!is_typescript_file("/p/.ts"));
    assert!(!is_typescript_file("/p/ts"));
    assert!(!is_typescript_file("/p.ts/a"));
    assert!(!is_typescript_file("/p/a.TS"));
    assert!(!is_typescript_file(""));
}

#[test]
fn ignore_file_gives_its_lines_but_for_blank_ones_and_comments() {
    let content = "# build output\ndist\n\n   \nnode_modules\n#other\n *.log \n";
    assert_eq!(read_gitignore(content), strings(&["dist", "node_modules", " *.log "]));
}

#[test]
fn ignore_file_lines_end_at_line_feeds_with_or_without_carriage_return() {
    assert_eq!(read_gitignore("a\r\nb\r\n"), strings(&["a", "b"]));
    assert_eq!(read_gitignore("a\nb"), strings(&["a", "b"]));
    assert_eq!(read_gitignore("a\r"), strings(&["a\r"]));
    assert_eq!(read_gitignore("a\r\r\n"), strings(&["a\r"]));
    assert_eq!(read_gitignore("\r\n\t\n\u{a0}\n"), Vec::<String>::new());
    assert_eq!(read_gitignore(""), Vec::<String>::new());
    assert_eq!(read_gitignore("\n"), Vec::<String>::new());
    assert_eq!(read_gitignore(" #x\n"), strings(&[" #x"]));
}

#[test]
fn ignore_file_lines_agree_with_the_lines_of_the_text() {
    let texts = ["", "\n", "a", "a\n", "a\nb", "a\r\nb\r", "\r\n\r\n", "a\n\nb\n", "x\r\n#c\r\n y"];
    for text in texts {
        let expected: Vec<String> = text
            .lines()
            .filter(|line| !line.trim().is_empty() && !line.starts_with('#'))
            .map(String::from)
            .collect();
        assert_eq!(read_gitignore(text), expected, "{:?}", text);
    }
}

#[test]
fn white_space_is_what_unicode_says() {
    for code in 0u32..0x3100 {
        if let Some(c) = char::from_u32(code) {
            assert_eq!(char_is_whitespace(c), c.is_whitespace(), "U+{:04X}", code);
        }
    }
    assert!(!char_is_whitespace('\u{feff}'));
    assert!(!char_is_whitespace('\u{10ffff}'));
}

#[test]
fn file_structure_keeps_the_source_files_that_are_not_ignored() {
    let files = strings(&[
        "/p/src/a.ts",
        "/p/src/a.js",
        "/p/node_modules/x/index.ts",
        "/p/dist/b.ts",
        "/p/ui/View.tsx",
        "/p/.git/c.ts",
        "/p/readme.md",
    ]);
    let info = get_file_structure("/p", &strings(&["dist"]), &files);
    assert_eq!(info.path, "/p");
    assert_eq!(info.files, strings(&["/p/src/a.ts", "/p/ui/View.tsx"]));
    let all = get_file_structure("/p", &Vec::new(), &files);
    assert_eq!(all.files, strings(&["/p/src/a.ts", "/p/dist/b.ts", "/p/ui/View.tsx"]));
    assert!(get_file_structure("/p", &Vec::new(), &Vec::new()).files.is_empty());
}

#[test]
fn arguments_hold_the_path() {
    assert_eq!(parse_args("/home/me/proj".to_string()).path, "/home/me/proj");
    assert_eq!(parse_args(String::new()).path, "");
}

#[test]
fn default_config_is_markdown_with_two_patterns() {
    let config = Config::default();
    assert_eq!(config.output_format, "markdown");
    assert_eq!(config.ignore_patterns, strings(&["node_modules", ".git"]));
}
