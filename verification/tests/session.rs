use source_select::filter::Filter;
use source_select::listing::{build_file_tree, Listing};
use source_select::menu::{labels, project, project_node, Entry};
use source_select::cli::interactive_file_selection;
use source_select::navigator::{NavigationError, Navigator, Outcome};
use source_select::selection::Selection;

fn file(name: &str) -> Listing {
    Listing { name: name.to_string(), is_dir: false, entries: Vec::new() }
}

fn dir(name: &str, entries: Vec<Listing>) -> Listing {
    Listing { name: name.to_string(), is_dir: true, entries }
}

fn session_on(entries: Vec<Listing>) -> Navigator {
    let tree = build_file_tree("/proj", &entries, &Filter::typescript());
    assert!(tree.is_dir());
    Navigator::new(tree)
}

fn small_project() -> Navigator {
    session_on(vec![file("b.ts"), dir("a", vec![file("x.ts")])])
}

fn mixed_project() -> Navigator {
    session_on(vec![
        file("zeta.ts"),
        dir("src", vec![file("main.ts"), dir("ui", vec![file("App.tsx")])]),
        file("Alpha.ts"),
        dir("Lib", vec![]),
        file("beta.tsx"),
        dir("docs", vec![]),
    ])
}

fn sorted(mut paths: Vec<String>) -> Vec<String> {
    paths.sort();
    paths
}

fn descend(name: &str) -> Entry {
    Entry::Descend(name.to_string())
}

fn toggle(name: &str, selected: bool) -> Entry {
    Entry::ToggleFile(name.to_string(), selected)
}

#[test]
fn example_session_runs_as_described() {
    let mut nav = small_project();
    assert_eq!(nav.menu(), vec![descend("a"), toggle("b.ts", false), Entry::Finish]);

    assert_eq!(nav.apply(&descend("a")), Ok(Outcome::Browsing));
    assert_eq!(nav.menu(), vec![Entry::Up, toggle("x.ts", false), Entry::Finish]);

    assert_eq!(nav.apply(&toggle("x.ts", false)), Ok(Outcome::Browsing));
    assert_eq!(nav.selection().paths(), vec!["/proj/a/x.ts".to_string()]);
    assert_eq!(nav.menu(), vec![Entry::Up, toggle("x.ts", true), Entry::Finish]);

    assert_eq!(nav.apply(&Entry::Up), Ok(Outcome::Browsing));
    assert!(nav.position().is_empty());
    assert_eq!(nav.menu(), vec![descend("a"), toggle("b.ts", false), Entry::Finish]);

    assert_eq!(nav.apply(&toggle("b.ts", false)), Ok(Outcome::Browsing));
    match nav.apply(&Entry::Finish) {
        Ok(Outcome::Done(paths)) => {
            assert_eq!(
                sorted(paths),
                vec!["/proj/a/x.ts".to_string(), "/proj/b.ts".to_string()]
            );
        }
        other => panic!("the session should be done, got {:?}", other),
    }
}

#[test]
fn descending_and_going_up_leads_back_to_the_same_directory() {
    let mut nav = mixed_project();
    let before = nav.menu();
    let children_before: Vec<String> =
        nav.current().children().iter().map(|c| c.name().clone()).collect();

    assert_eq!(nav.apply(&descend("src")), Ok(Outcome::Browsing));
    assert_eq!(nav.position(), &vec!["src".to_string()]);
    assert_eq!(nav.current().path(), "/proj/src");
    assert_eq!(nav.apply(&descend("ui")), Ok(Outcome::Browsing));
    assert_eq!(nav.current().path(), "/proj/src/ui");
    assert_eq!(nav.apply(&Entry::Up), Ok(Outcome::Browsing));
    assert_eq!(nav.current().path(), "/proj/src");
    assert_eq!(nav.apply(&Entry::Up), Ok(Outcome::Browsing));

    assert!(nav.position().is_empty());
    assert_eq!(nav.current().path(), "/proj");
    let children_after: Vec<String> =
        nav.current().children().iter().map(|c| c.name().clone()).collect();
    assert_eq!(children_after, children_before);
    assert_eq!(nav.menu(), before);
}

#[test]
fn toggling_twice_leaves_the_selection_unchanged() {
    let mut nav = small_project();
    nav.apply(&descend("a")).unwrap();
    nav.apply(&toggle("x.ts", false)).unwrap();
    nav.apply(&Entry::Up).unwrap();
    let before = sorted(nav.selection().paths());

    assert_eq!(nav.apply(&toggle("b.ts", false)), Ok(Outcome::Browsing));
    assert_eq!(nav.selection().len(), before.len() + 1);
    assert!(nav.selection().contains("/proj/b.ts"));
    assert_eq!(nav.apply(&toggle("b.ts", true)), Ok(Outcome::Browsing));
    assert_eq!(nav.selection().len(), before.len());
    assert!(!nav.selection().contains("/proj/b.ts"));
    assert_eq!(sorted(nav.selection().paths()), before);
}

#[test]
fn toggling_keeps_position_and_cursor() {
    let mut nav = small_project();
    assert_eq!(nav.select(0), Ok(Outcome::Browsing));
    assert_eq!(nav.position(), &vec!["a".to_string()]);
    assert_eq!(nav.cursor(), 0);
    assert_eq!(nav.select(1), Ok(Outcome::Browsing));
    assert_eq!(nav.position(), &vec!["a".to_string()]);
    assert_eq!(nav.cursor(), 1);
    assert_eq!(nav.default_index(), 1);
    assert!(nav.selection().contains("/proj/a/x.ts"));
}

#[test]
fn cursor_resets_when_the_directory_changes() {
    let mut nav = mixed_project();
    assert_eq!(nav.select(4), Ok(Outcome::Browsing));
    assert_eq!(nav.cursor(), 4);
    assert_eq!(nav.select(2), Ok(Outcome::Browsing));
    assert_eq!(nav.position(), &vec!["src".to_string()]);
    assert_eq!(nav.cursor(), 0);
    assert_eq!(nav.select(2), Ok(Outcome::Browsing));
    assert_eq!(nav.cursor(), 2);
    assert_eq!(nav.select(0), Ok(Outcome::Browsing));
    assert!(nav.position().is_empty());
    assert_eq!(nav.cursor(), 0);
}

#[test]
fn directories_come_first_and_names_are_ordered_by_case_sensitive_comparison() {
    let nav = mixed_project();
    assert_eq!(
        nav.menu(),
        vec![
            descend("Lib"),
            descend("docs"),
            descend("src"),
            toggle("Alpha.ts", false),
            toggle("beta.tsx", false),
            toggle("zeta.ts", false),
            Entry::Finish,
        ]
    );
}

#[test]
fn root_has_no_up_and_every_other_directory_has_it_first() {
    let mut nav = mixed_project();
    assert!(!nav.menu().contains(&Entry::Up));
    nav.apply(&descend("src")).unwrap();
    assert_eq!(nav.menu()[0], Entry::Up);
    assert_eq!(nav.menu().iter().filter(|e| **e == Entry::Up).count(), 1);
    nav.apply(&descend("ui")).unwrap();
    assert_eq!(
        nav.menu(),
        vec![Entry::Up, toggle("App.tsx", false), Entry::Finish]
    );
    nav.apply(&Entry::Up).unwrap();
    nav.apply(&Entry::Up).unwrap();
    assert!(!nav.menu().contains(&Entry::Up));
}

#[test]
fn finish_is_always_the_last_entry() {
    let mut nav = mixed_project();
    assert_eq!(nav.menu().last(), Some(&Entry::Finish));
    nav.apply(&descend("Lib")).unwrap();
    assert_eq!(nav.menu(), vec![Entry::Up, Entry::Finish]);
}

#[test]
fn finish_with_nothing_selected_restarts() {
    let mut nav = small_project();
    nav.apply(&descend("a")).unwrap();
    nav.select(1).unwrap();
    nav.select(1).unwrap();
    assert!(nav.selection().is_empty());
    assert_eq!(nav.cursor(), 1);
    assert_eq!(nav.apply(&Entry::Finish), Ok(Outcome::Restart));
    assert!(nav.position().is_empty());
    assert_eq!(nav.cursor(), 0);
    assert!(nav.selection().is_empty());
    assert_eq!(nav.apply(&Entry::Finish), Ok(Outcome::Restart));
}

#[test]
fn finish_with_a_selection_is_done() {
    let mut nav = small_project();
    nav.apply(&toggle("b.ts", false)).unwrap();
    assert_eq!(nav.apply(&Entry::Finish), Ok(Outcome::Done(vec!["/proj/b.ts".to_string()])));
}

#[test]
fn the_same_choices_give_the_same_selection() {
    let choices: Vec<usize> = vec![2, 2, 1, 1, 0, 0, 3, 4, 6];
    let mut first = mixed_project();
    let mut second = mixed_project();
    let a = first.run(&choices);
    let b = second.run(&choices);
    match (a, b) {
        (Ok(Outcome::Done(x)), Ok(Outcome::Done(y))) => {
            assert_eq!(sorted(x.clone()), sorted(y));
            assert_eq!(
                sorted(x),
                vec![
                    "/proj/Alpha.ts".to_string(),
                    "/proj/beta.tsx".to_string(),
                    "/proj/src/main.ts".to_string(),
                    "/proj/src/ui/App.tsx".to_string(),
                ]
            );
        }
        other => panic!("both runs should be done, got {:?}", other),
    }
}

#[test]
fn a_run_goes_on_after_a_restart_and_stops_when_done() {
    let mut nav = small_project();
    assert_eq!(
        nav.run(&vec![2, 0, 1, 2, 0]),
        Ok(Outcome::Done(vec!["/proj/a/x.ts".to_string()]))
    );
    assert_eq!(nav.position(), &vec!["a".to_string()]);
}

#[test]
fn a_run_without_a_finish_is_still_browsing() {
    let mut nav = small_project();
    assert_eq!(nav.run(&vec![1, 0]), Ok(Outcome::Browsing));
    assert_eq!(nav.position(), &vec!["a".to_string()]);
    assert!(nav.selection().contains("/proj/b.ts"));
    assert_eq!(nav.run(&Vec::new()), Ok(Outcome::Browsing));
}

#[test]
fn a_run_stops_at_an_index_beyond_the_menu() {
    let mut nav = small_project();
    assert_eq!(nav.run(&vec![1, 3, 0]), Err(NavigationError::NoSuchEntry));
    assert!(nav.position().is_empty());
    assert!(nav.selection().contains("/proj/b.ts"));
}

#[test]
fn up_at_the_root_is_refused() {
    let mut nav = small_project();
    assert_eq!(nav.apply(&Entry::Up), Err(NavigationError::NoParent));
    assert!(nav.position().is_empty());
}

#[test]
fn descending_into_what_is_not_a_subdirectory_is_refused() {
    let mut nav = small_project();
    assert_eq!(nav.apply(&descend("missing")), Err(NavigationError::NoSuchDirectory));
    assert_eq!(nav.apply(&descend("b.ts")), Err(NavigationError::NoSuchDirectory));
    assert!(nav.position().is_empty());
}

#[test]
fn toggling_what_is_not_a_file_is_refused() {
    let mut nav = small_project();
    assert_eq!(nav.apply(&toggle("missing.ts", false)), Err(NavigationError::NoSuchFile));
    assert_eq!(nav.apply(&toggle("a", false)), Err(NavigationError::NoSuchFile));
    assert!(nav.selection().is_empty());
}

#[test]
fn selecting_beyond_the_menu_is_refused() {
    let mut nav = small_project();
    assert_eq!(nav.select(3), Err(NavigationError::NoSuchEntry));
    assert_eq!(nav.cursor(), 0);
}

#[test]
fn default_index_stays_inside_the_menu() {
    let mut nav = mixed_project();
    assert_eq!(nav.default_index(), 0);
    nav.select(5).unwrap();
    assert_eq!(nav.default_index(), 5);
    let mut deep = small_project();
    deep.select(1).unwrap();
    assert_eq!(deep.default_index(), 1);
}

#[test]
fn labels_mark_selected_files_and_the_last_sibling() {
    let mut nav = small_project();
    nav.apply(&toggle("b.ts", false)).unwrap();
    let shown = labels(&nav.menu());
    assert_eq!(
        shown,
        vec![
            "├── ▸ a".to_string(),
            "└── ✓ b.ts".to_string(),
            "─── ◉ Finish selection".to_string(),
        ]
    );
    nav.apply(&descend("a")).unwrap();
    assert_eq!(
        labels(&nav.menu()),
        vec![
            "┌── ▴ ..".to_string(),
            "└── ◦ x.ts".to_string(),
            "─── ◉ Finish selection".to_string(),
        ]
    );
}

#[test]
fn labels_of_an_empty_directory_have_no_last_sibling() {
    let mut nav = mixed_project();
    nav.apply(&descend("Lib")).unwrap();
    assert_eq!(
        labels(&nav.menu()),
        vec!["┌── ▴ ..".to_string(), "─── ◉ Finish selection".to_string()]
    );
}

#[test]
fn a_single_label_follows_the_entry() {
    assert_eq!(descend("lib").label(false), "├── ▸ lib");
    assert_eq!(descend("lib").label(true), "└── ▸ lib");
    assert_eq!(toggle("a.ts", true).label(false), "├── ✓ a.ts");
    assert_eq!(toggle("a.ts", false).label(true), "└── ◦ a.ts");
    assert_eq!(Entry::Up.label(true), "┌── ▴ ..");
    assert_eq!(Entry::Finish.label(false), "─── ◉ Finish selection");
}

#[test]
fn projection_shows_the_selection_it_is_given() {
    let tree = build_file_tree(
        "/proj",
        &vec![file("b.ts"), file("c.ts")],
        &Filter::typescript(),
    );
    let mut selection = Selection::new();
    selection.toggle("/proj/c.ts");
    assert_eq!(
        project_node(&tree, true, &selection),
        vec![toggle("b.ts", false), toggle("c.ts", true), Entry::Finish]
    );
    assert_eq!(
        project_node(&tree, false, &selection),
        vec![Entry::Up, toggle("b.ts", false), toggle("c.ts", true), Entry::Finish]
    );
    assert_eq!(
        project(&tree, &Vec::new(), &selection),
        Some(vec![toggle("b.ts", false), toggle("c.ts", true), Entry::Finish])
    );
    assert_eq!(project(&tree, &vec!["b.ts".to_string()], &selection), None);
    assert_eq!(project(&tree, &vec!["missing".to_string()], &selection), None);
}

#[test]
fn selection_is_a_set() {
    let mut selection = Selection::new();
    assert!(selection.is_empty());
    assert_eq!(selection.len(), 0);
    selection.toggle("/a");
    selection.toggle("/b");
    selection.toggle("/c");
    assert_eq!(selection.len(), 3);
    selection.toggle("/b");
    assert_eq!(selection.len(), 2);
    assert!(selection.contains("/a"));
    assert!(!selection.contains("/b"));
    assert!(selection.contains("/c"));
    assert_eq!(sorted(selection.paths()), vec!["/a".to_string(), "/c".to_string()]);
    assert!(!selection.is_empty());
}

fn mixed_tree() -> source_select::tree::FileNode {
    build_file_tree(
        "/proj",
        &vec![
            file("zeta.ts"),
            dir("src", vec![file("main.ts"), dir("ui", vec![file("App.tsx")])]),
            file("Alpha.ts"),
        ],
        &Filter::typescript(),
    )
}

#[test]
fn a_whole_session_ends_with_the_selected_paths() {
    let choices = vec![0, 1, 1, 0, 0, 1, 3];
    let first = interactive_file_selection(mixed_tree(), &choices).unwrap().unwrap();
    let second = interactive_file_selection(mixed_tree(), &choices).unwrap().unwrap();
    assert_eq!(sorted(first.clone()), sorted(second));
    assert_eq!(
        sorted(first),
        vec!["/proj/Alpha.ts".to_string(), "/proj/src/ui/App.tsx".to_string()]
    );
}

#[test]
fn a_whole_session_that_is_not_finished_has_no_result() {
    assert_eq!(interactive_file_selection(mixed_tree(), &vec![1, 0]), Ok(None));
    assert_eq!(interactive_file_selection(mixed_tree(), &Vec::new()), Ok(None));
    assert_eq!(interactive_file_selection(mixed_tree(), &vec![3, 3, 3]), Ok(None));
}

#[test]
fn a_whole_session_stops_at_a_choice_outside_the_menu() {
    assert_eq!(
        interactive_file_selection(mixed_tree(), &vec![1, 4, 3]),
        Err(NavigationError::NoSuchEntry)
    );
}

#[test]
fn projection_at_a_position_has_up_unless_it_is_the_root() {
    let tree = mixed_tree();
    let selection = Selection::new();
    assert_eq!(
        project(&tree, &vec!["src".to_string()], &selection),
        Some(vec![Entry::Up, descend("ui"), toggle("main.ts", false), Entry::Finish])
    );
    assert_eq!(
        project(&tree, &vec!["src".to_string(), "ui".to_string()], &selection),
        Some(vec![Entry::Up, toggle("App.tsx", false), Entry::Finish])
    );
    assert_eq!(
        project(&tree, &Vec::new(), &selection),
        Some(vec![
            descend("src"),
            toggle("Alpha.ts", false),
            toggle("zeta.ts", false),
            Entry::Finish
        ])
    );
}

#[test]
fn toggling_a_file_flips_its_marker_and_no_other() {
    let mut nav = mixed_project();
    let before = nav.menu();
    nav.apply(&toggle("beta.tsx", false)).unwrap();
    let after = nav.menu();
    assert_eq!(after.len(), before.len());
    for (old, new) in before.iter().zip(after.iter()) {
        if *old == toggle("beta.tsx", false) {
            assert_eq!(*new, toggle("beta.tsx", true));
        } else {
            assert_eq!(new, old);
        }
    }
}
