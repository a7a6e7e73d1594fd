use cheat::config::Config;
use cheat::tries::{TrieStructure, TriesNode};
use cheat::utils::{check_for_editor, FileNames};

#[test]
fn file_names_split_off_the_last_component() {
    let f = FileNames::new("/home/user/.cheat/docker".to_string());
    assert_eq!(f.name, "docker");
    assert_eq!(f.path, "/home/user/.cheat/docker");

    let bare = FileNames::new("notes".to_string());
    assert_eq!(bare.name, "notes");

    let trailing = FileNames::new("dir/".to_string());
    assert_eq!(trailing.name, "");
}

#[test]
fn editors_found_present_are_selected_in_order() {
    let binaries: Vec<String> =
        vec!["nano".to_string(), "vi".to_string(), "vim".to_string()];
    let present = vec![true, false, true];
    let mut selector: Vec<String> = vec!["already".to_string()];
    check_for_editor(&binaries, "/usr/bin", &present, &mut selector);
    assert_eq!(
        selector,
        vec![
            "already".to_string(),
            "/usr/bin/nano".to_string(),
            "/usr/bin/vim".to_string()
        ]
    );
}

#[test]
fn fresh_config_is_empty() {
    let c = Config::new();
    assert_eq!(c.config_path, "");
    assert!(c.editor_path.is_none());
}

#[test]
fn structure_insert_and_find() {
    let mut t = TrieStructure::new();
    t.insert("abc".to_string());

    let (hit, walked) = t.find("abc".to_string());
    assert!(hit);
    assert_eq!(walked, "\u{0}ab");

    let (hit, walked) = t.find("ab".to_string());
    assert!(hit);
    assert_eq!(walked, "\u{0}a");

    let (miss, empty) = t.find("abd".to_string());
    assert!(!miss);
    assert_eq!(empty, "");
}

#[test]
fn structure_nodes_carry_their_character() {
    let n = TriesNode::new('q', true);
    assert!(n.is_final);
    assert!(n.check_value('q'));

    let root = TriesNode::new_root();
    assert!(!root.is_final);
    assert!(!root.check_value('q'));

    let mut parent = TriesNode::new('p', false);
    parent.insert_value('c', true);
    assert!(parent.child_nodes.contains_key(&('c' as u32)));
    let child = parent.child_nodes.get(&('c' as u32)).unwrap();
    assert_eq!(child.value, Some('c'));
    assert!(child.is_final);
}
