use source_select::file_system::FileInfo;
use source_select::names::NameSet;
use source_select::output_formatter::{
    add_to_group, can_group, can_group_all, format_group, format_group_inner,
    format_grouped_file_structure, format_output_for_neovim, indentation, Group,
};
use source_select::paths::{join_parts, path_components, relative_parts, relative_path};

fn strings(items: &[&str]) -> Vec<String> {
    items.iter().map(|s| s.to_string()).collect()
}

fn info(path: &str) -> FileInfo {
    FileInfo { path: path.to_string(), files: Vec::new() }
}

fn keys(group: &Group) -> Vec<String> {
    (0..group.len()).map(|i| group.key_at(i).clone()).collect()
}

#[test]
fn indentation_is_two_spaces_a_level() {
    assert_eq!(indentation(0), "");
    assert_eq!(indentation(1), "  ");
    assert_eq!(indentation(3), "      ");
}

#[test]
fn name_set_keeps_names_once_and_in_order() {
    let mut set = NameSet::new();
    assert!(set.is_empty());
    for name in ["b", "a", "c", "a", "B", "b"] {
        set.insert(name);
    }
    assert_eq!(set.names(), &strings(&["B", "a", "b", "c"]));
    assert!(!set.is_empty());
}

#[test]
fn inner_names_are_written_one_a_line() {
    let mut set = NameSet::new();
    set.insert("b.ts");
    set.insert("a.ts");
    assert_eq!(format_group_inner(&set, 0), "a.ts\nb.ts\n");
    assert_eq!(format_group_inner(&set, 2), "    a.ts\n    b.ts\n");
    assert_eq!(format_group_inner(&NameSet::new(), 1), "");
}

#[test]
fn group_entries_without_names_are_single_lines() {
    let mut group = Group::new();
    group.insert("src");
    group.insert("a.ts");
    group.insert("src");
    assert_eq!(group.len(), 2);
    assert_eq!(format_group(&group, 0), "a.ts\nsrc\n");
    assert_eq!(format_group(&group, 1), "  a.ts\n  src\n");
    assert_eq!(format_group(&Group::new(), 0), "");
}

#[test]
fn group_entries_with_names_are_headings() {
    let mut group = Group::new();
    group.insert_under("src", "b.ts");
    group.insert("readme");
    group.insert_under("src", "a.ts");
    group.insert_under("lib", "x.ts");
    group.insert_under("src", "b.ts");
    assert_eq!(keys(&group), strings(&["lib", "readme", "src"]));
    assert_eq!(group.inner_at(2).names(), &strings(&["a.ts", "b.ts"]));
    assert_eq!(
        format_group(&group, 0),
        "lib:\n  x.ts\nreadme\nsrc:\n  a.ts\n  b.ts\n"
    );
    assert_eq!(
        format_group(&group, 1),
        "  lib:\n    x.ts\n  readme\n  src:\n    a.ts\n    b.ts\n"
    );
}

#[test]
fn insert_keeps_the_names_already_filed_under_a_key() {
    let mut group = Group::new();
    group.insert_under("src", "a.ts");
    group.insert("src");
    assert_eq!(group.inner_at(0).names(), &strings(&["a.ts"]));
}

#[test]
fn every_part_of_a_path_gets_an_entry() {
    let mut group = Group::new();
    add_to_group(&mut group, &strings(&["src", "ui", "App.tsx"]));
    add_to_group(&mut group, &strings(&["src", "main.ts"]));
    assert_eq!(keys(&group), strings(&["App.tsx", "main.ts", "src", "ui"]));
    assert!(group.inner_at(2).is_empty());
}

#[test]
fn components_pass_over_empty_pieces_and_single_dots() {
    assert_eq!(path_components("/a/b/c.ts"), strings(&["/", "a", "b", "c.ts"]));
    assert_eq!(path_components("a//b/"), strings(&["a", "b"]));
    assert_eq!(path_components("a/./b/."), strings(&["a", "b"]));
    assert_eq!(path_components("./a/./b"), strings(&[".", "a", "b"]));
    assert_eq!(path_components("/./a"), strings(&["/", "a"]));
    assert_eq!(path_components("a/../b"), strings(&["a", "..", "b"]));
    assert_eq!(path_components("/"), strings(&["/"]));
    assert_eq!(path_components("."), strings(&["."]));
    assert_eq!(path_components(""), Vec::<String>::new());
}

#[test]
fn relative_parts_drop_the_base_when_the_path_lies_in_it() {
    assert_eq!(relative_parts("/proj/a/x.ts", "/proj"), strings(&["a", "x.ts"]));
    assert_eq!(relative_parts("/proj/a/x.ts", "/proj/"), strings(&["a", "x.ts"]));
    assert_eq!(relative_parts("/proj/./a/x.ts", "/proj/."), strings(&["a", "x.ts"]));
    assert_eq!(relative_parts("/proj/a/x.ts", "/proj/a"), strings(&["x.ts"]));
    assert_eq!(relative_parts("/proj", "/proj"), Vec::<String>::new());
    assert_eq!(relative_parts("/other/x.ts", "/proj"), strings(&["/", "other", "x.ts"]));
    assert_eq!(relative_parts("/project/x.ts", "/proj"), strings(&["/", "project", "x.ts"]));
    assert_eq!(relative_parts("proj/x.ts", "/proj"), strings(&["proj", "x.ts"]));
    assert_eq!(relative_parts("proj/x.ts", "proj"), strings(&["x.ts"]));
    assert_eq!(relative_parts("./proj/x.ts", "proj"), strings(&[".", "proj", "x.ts"]));
    assert_eq!(relative_parts("./proj/x.ts", "./proj"), strings(&["x.ts"]));
    assert_eq!(relative_parts("/proj/x.ts", ""), strings(&["/", "proj", "x.ts"]));
    assert_eq!(relative_parts("a/x.ts", ""), strings(&["a", "x.ts"]));
}

#[test]
fn relative_path_keeps_the_text_between_its_first_and_last_part() {
    assert_eq!(relative_path("/proj/a/x.ts", "/proj"), "a/x.ts");
    assert_eq!(relative_path("/proj/./b.ts", "/proj"), "b.ts");
    assert_eq!(relative_path("/proj//a/x.ts", "/proj"), "a/x.ts");
    assert_eq!(relative_path("/proj/a/./x.ts", "/proj"), "a/./x.ts");
    assert_eq!(relative_path("/proj/a//x.ts/.", "/proj"), "a//x.ts");
    assert_eq!(relative_path("/proj/x.ts", "/proj/"), "x.ts");
    assert_eq!(relative_path("/proj", "/proj"), "");
    assert_eq!(relative_path("/other//x.ts", "/proj"), "/other//x.ts");
    assert_eq!(join_parts(&strings(&["a", "b", "c"])), "a/b/c");
    assert_eq!(join_parts(&strings(&["a"])), "a");
    assert_eq!(join_parts(&Vec::new()), "");
}

#[test]
fn paths_can_be_filed_when_all_their_parts_below_the_base_are_names() {
    assert!(can_group("/proj/a/x.ts", "/proj"));
    assert!(can_group("/proj/./a//x.ts/", "/proj"));
    assert!(can_group("a/x.ts", "/proj"));
    assert!(can_group("a/x.ts", ""));
    assert!(!can_group("/proj", "/proj"));
    assert!(!can_group("/proj/.", "/proj"));
    assert!(!can_group("/other/c.ts", "/proj"));
    assert!(!can_group("/proj/a/../b.ts", "/proj"));
    assert!(!can_group("./a.ts", "/proj"));
    assert!(can_group("../a.ts", ".."));
    assert!(!can_group("../a.ts", ""));
    assert!(!can_group("", ""));
    let files = strings(&["/proj/a.ts", "/proj/b/c.ts"]);
    assert!(can_group_all(&info("/proj"), &files));
    assert!(!can_group_all(&info("/proj/b"), &files));
    assert!(can_group_all(&info("/proj"), &Vec::new()));
}

#[test]
fn file_structure_lists_the_names_in_the_selected_paths() {
    let selected = strings(&["/proj/src/ui/App.tsx", "/proj/b.ts", "/proj/src/main.ts"]);
    assert_eq!(
        format_grouped_file_structure(&info("/proj"), &selected),
        "App.tsx\nb.ts\nmain.ts\nsrc\nui\n"
    );
    assert_eq!(format_grouped_file_structure(&info("/proj"), &Vec::new()), "");
    assert_eq!(
        format_grouped_file_structure(&info("/proj"), &strings(&["/proj/./b.ts", "/proj/a/./b.ts"])),
        "a\nb.ts\n"
    );
    assert_eq!(
        format_grouped_file_structure(&info("/elsewhere"), &strings(&["proj/b.ts"])),
        "b.ts\nproj\n"
    );
}

#[test]
fn report_holds_structure_signatures_and_contents() {
    let selected = strings(&["/proj/a/x.ts", "/proj/b.ts"]);
    let signatures = vec![
        ("/proj/a/x.ts".to_string(), strings(&["function f", "const g = () => {}"])),
        ("/proj/b.ts".to_string(), Vec::new()),
        ("/proj/a/x.ts".to_string(), strings(&["function never_shown"])),
    ];
    let contents = vec![
        ("/proj/a/x.ts".to_string(), "function f() {}".to_string()),
        ("/proj/b.ts".to_string(), "let b = 1;\n".to_string()),
        ("/proj/./c.ts".to_string(), String::new()),
    ];
    let expected = "# File Structure\na\nb.ts\nx.ts\n\n\
# a/x.ts\n## Signatures\n- function f\n- const g = () => {}\n\n## File contents\n```\nfunction f() {}\n```\n\n\
# b.ts\n## Signatures\n\n## File contents\n```\nlet b = 1;\n\n```\n\n\
# c.ts\n## File contents\n```\n\n```\n\n";
    assert_eq!(
        format_output_for_neovim(&info("/proj"), &selected, &signatures, &contents),
        expected
    );
}

#[test]
fn report_on_nothing_is_the_heading_alone() {
    assert_eq!(
        format_output_for_neovim(&info("/proj"), &Vec::new(), &Vec::new(), &Vec::new()),
        "# File Structure\n\n"
    );
}
