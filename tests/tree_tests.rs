use file_remover::browser::{App, Command, Effect};
use file_remover::edit::{Removal, TreeError};
use file_remover::selection::Selection;
use file_remover::tree::{DirTree, DirType, Node};

fn entries(list: &[(&str, DirType)]) -> Vec<(String, DirType)> {
    list.iter().map(|(n, k)| (n.to_string(), *k)).collect()
}

fn sample_tree() -> DirTree {
    let mut t = DirTree::new(".".to_string());
    t.scan_dir(".", entries(&[("a", DirType::Dir), ("b", DirType::File)])).unwrap();
    t
}

fn row_of(t: &DirTree, sel: &Selection, path: &str) -> (String, DirType, usize, bool, bool) {
    let paths = t.to_array();
    let rows = t.to_enriched_array(sel);
    let i = paths.iter().position(|p| p == path).expect("path listed");
    rows[i].clone()
}

#[test]
fn scanned_root_flattens_in_enumeration_order() {
    let t = sample_tree();
    assert_eq!(t.to_array(), vec![".".to_string(), "./a".to_string(), "./b".to_string()]);
    let sel = Selection::new();
    let rows = t.to_enriched_array(&sel);
    assert_eq!(rows.len(), 3);
    assert_eq!(rows[0], (".".to_string(), DirType::Dir, 0, false, false));
    assert_eq!(rows[1], ("a".to_string(), DirType::Dir, 1, false, false));
    assert_eq!(rows[2], ("b".to_string(), DirType::File, 1, true, false));
}

#[test]
fn selection_is_inherited_by_later_children() {
    let mut t = sample_tree();
    let mut sel = Selection::new();
    sel.toggle("./a");
    t.scan_dir("./a", entries(&[("c", DirType::File)])).unwrap();
    assert_eq!(row_of(&t, &sel, "./a/c"), ("c".to_string(), DirType::File, 2, true, true));
    assert!(!sel.contains("./a/c"));
    assert!(!row_of(&t, &sel, "./b").4);
}

#[test]
fn removed_directory_no_longer_resolves() {
    let mut t = sample_tree();
    t.scan_dir("./a", entries(&[("c", DirType::File)])).unwrap();
    match t.removal_for("./a") {
        Ok(Removal::Dir(p)) => assert_eq!(p, "./a"),
        other => panic!("unexpected {:?}", other),
    }
    match t.remove_node("./a") {
        Ok(Removal::Dir(p)) => assert_eq!(p, "./a"),
        other => panic!("unexpected {:?}", other),
    }
    assert!(t.find_node("./a").is_none());
    assert!(t.find_node("./a/c").is_none());
    assert_eq!(t.to_array(), vec![".".to_string(), "./b".to_string()]);
}

#[test]
fn lookup_resolves_full_paths() {
    let mut t = sample_tree();
    t.scan_dir("./a", entries(&[("c", DirType::Dir), ("d", DirType::File)])).unwrap();
    for p in t.to_array() {
        let n = t.find_node(&p).expect("every listed path resolves");
        assert!(p.ends_with(n.name.as_str()));
    }
    assert_eq!(t.find_node(".").unwrap().name, ".");
    assert_eq!(t.find_node("./a/d").unwrap().type_, DirType::File);
    assert_eq!(t.find_node("a/c").unwrap().name, "c");
    assert!(t.find_node("./x").is_none());
    assert!(t.find_node("./a/c/e").is_none());
    assert!(t.find_node("./").is_none());
}

#[test]
fn unscanned_children_do_not_resolve() {
    let t = DirTree::new(".".to_string());
    assert!(t.find_node("./a").is_none());
    assert!(t.find_node(".").is_some());
}

#[test]
fn full_path_joins_with_a_slash() {
    let n = Node::new("c".to_string(), DirType::File);
    assert_eq!(n.full_path(None), "c");
    assert_eq!(n.full_path(Some("./a")), "./a/c");
}

#[test]
fn scan_is_done_once() {
    let mut t = sample_tree();
    t.scan_dir(".", entries(&[("z", DirType::File)])).unwrap();
    assert_eq!(t.to_array().len(), 3);
    t.scan_dir("./b", entries(&[("z", DirType::File)])).unwrap();
    assert_eq!(t.to_array().len(), 3);
    assert_eq!(t.scan_dir("./nope", Vec::new()), Err(TreeError::NotFound));
}

#[test]
fn removal_errors_and_root() {
    let mut t = sample_tree();
    t.scan_dir("./a", entries(&[("l", DirType::Symlink), ("f", DirType::File)])).unwrap();
    assert!(matches!(t.removal_for("./a/l"), Err(TreeError::Unsupported)));
    assert!(matches!(t.remove_node("./a/l"), Err(TreeError::Unsupported)));
    assert!(t.find_node("./a/l").is_some());
    assert!(matches!(t.remove_node("./missing"), Err(TreeError::NotFound)));
    assert!(matches!(t.remove_node("."), Ok(Removal::Root)));
    assert_eq!(t.to_array().len(), 5);
    match t.remove_node("./a/f") {
        Ok(Removal::File(p)) => assert_eq!(p, "./a/f"),
        other => panic!("unexpected {:?}", other),
    }
    assert_eq!(
        t.to_array(),
        vec![".".to_string(), "./a".to_string(), "./a/l".to_string(), "./b".to_string()]
    );
}

#[test]
fn removal_path_uses_root_name() {
    let mut t = DirTree::new("/tmp/x".to_string());
    t.scan_dir(".", entries(&[("f", DirType::File)])).unwrap();
    match t.removal_for("./f") {
        Ok(Removal::File(p)) => assert_eq!(p, "/tmp/x/f"),
        other => panic!("unexpected {:?}", other),
    }
    assert_eq!(t.to_array(), vec!["/tmp/x".to_string(), "/tmp/x/f".to_string()]);
}

#[test]
fn detach_removes_every_sibling_of_that_name() {
    let mut n = Node::new(".".to_string(), DirType::Dir);
    n.add_child(Node::new("x".to_string(), DirType::File));
    n.add_child(Node::new("y".to_string(), DirType::File));
    n.add_child(Node::new("x".to_string(), DirType::Dir));
    n.detach_named(&"x".to_string());
    assert_eq!(n.children.len(), 1);
    assert_eq!(n.children[0].name, "y");
}

#[test]
fn toggle_twice_restores_selection() {
    let mut sel = Selection::new();
    sel.toggle("./b");
    sel.toggle("./a");
    assert!(sel.contains("./a"));
    sel.toggle("./a");
    assert!(!sel.contains("./a"));
    assert!(sel.contains("./b"));
    assert_eq!(sel.paths, vec!["./b".to_string()]);
    sel.clear();
    assert!(!sel.contains("./b"));
}

#[test]
fn last_sibling_flag_marks_only_the_last_child() {
    let mut t = DirTree::new(".".to_string());
    t.scan_dir(".", entries(&[("a", DirType::Dir), ("b", DirType::Dir), ("c", DirType::File)]))
        .unwrap();
    t.scan_dir("./a", entries(&[("d", DirType::File)])).unwrap();
    let sel = Selection::new();
    let rows = t.to_enriched_array(&sel);
    let top: Vec<bool> = rows.iter().filter(|r| r.2 == 1).map(|r| r.3).collect();
    assert_eq!(top, vec![false, false, true]);
    assert_eq!(rows[2], ("d".to_string(), DirType::File, 2, true, false));
    assert_eq!(t.to_array().len(), rows.len());
}

#[test]
fn cursor_wraps_around() {
    let mut app = App::new(".".to_string());
    app.dir_tree = sample_tree();
    assert_eq!(app.hovered, Some(0));
    app.handle_hover_up();
    assert_eq!(app.hovered, Some(2));
    app.handle_hover_down();
    assert_eq!(app.hovered, Some(0));
    app.handle_hover_down();
    app.handle_hover_down();
    assert_eq!(app.hovered, Some(2));
    app.hovered = Some(7);
    app.clamp_hovered();
    assert_eq!(app.hovered, Some(2));
    app.hovered = None;
    app.clamp_hovered();
    assert_eq!(app.hovered, Some(0));
}

#[test]
fn commands_ask_for_outside_work() {
    let mut app = App::new(".".to_string());
    match app.handle_command(Command::Open) {
        Effect::Scan(p) => assert_eq!(p, "."),
        other => panic!("unexpected {:?}", other),
    }
    app.dir_tree.scan_dir(".", entries(&[("a", DirType::Dir), ("b", DirType::File)])).unwrap();
    assert!(matches!(app.handle_command(Command::Open), Effect::Nothing));
    app.handle_command(Command::HoverDown);
    assert_eq!(app.hovered_path(), Some("./a".to_string()));
    app.handle_command(Command::ToggleSelect);
    assert!(app.selected.contains("./a"));
    match app.handle_command(Command::RemoveHovered) {
        Effect::Remove(ps, clear) => {
            assert_eq!(ps, vec!["./a".to_string()]);
            assert!(!clear);
        }
        other => panic!("unexpected {:?}", other),
    }
    match app.handle_command(Command::RemoveAll) {
        Effect::Remove(ps, clear) => {
            assert_eq!(ps, vec!["./a".to_string()]);
            assert!(clear);
        }
        other => panic!("unexpected {:?}", other),
    }
    app.handle_command(Command::HoverDown);
    assert!(matches!(app.handle_command(Command::Open), Effect::Nothing));
    assert!(!app.exit);
    app.handle_command(Command::Exit);
    assert!(app.exit);
}

#[test]
fn parent_selection_of_root_and_child() {
    let mut sel = Selection::new();
    sel.toggle(".");
    let root = Node::new(".".to_string(), DirType::Dir);
    assert!(!root.is_parent_selected(None, &sel));
    let child = Node::new("a".to_string(), DirType::File);
    assert!(child.is_parent_selected(Some((".", false)), &sel));
    assert!(child.is_parent_selected(Some(("./x", true)), &Selection::new()));
    assert!(!child.is_parent_selected(Some(("./x", false)), &sel));
    assert!(child.is_selected("./a", &sel, true));
    assert!(!child.is_selected("./a", &sel, false));
}

#[test]
fn height_bound_is_checked() {
    let mut t = sample_tree();
    assert!(t.base_node.height_within(1));
    assert!(!t.base_node.height_within(0));
    t.scan_dir("./a", entries(&[("c", DirType::File)])).unwrap();
    assert!(!t.base_node.height_within(1));
    assert!(t.base_node.height_within(2));
    assert!(Node::new("x".to_string(), DirType::File).height_within(0));
}

#[test]
fn cursor_out_of_range_moves_back_in() {
    let mut app = App::new(".".to_string());
    app.dir_tree = sample_tree();
    app.hovered = Some(9);
    app.handle_hover_up();
    assert_eq!(app.hovered, Some(2));
    app.hovered = Some(9);
    app.handle_hover_down();
    assert_eq!(app.hovered, Some(0));
    app.hovered = Some(1);
    app.handle_hover_up();
    assert_eq!(app.hovered, Some(0));
}
