use tachylyte::entry_actions::{
    is_single_name, mutation_check, new_folder_marker, rename_target, transfer_target, untitled_note, MutationCheck,
};
use tachylyte::vault::VaultPath;

fn vp(s: &str) -> VaultPath {
    VaultPath::new(s).unwrap()
}

#[test]
fn new_note_and_folder_names_count_up() {
    assert_eq!(untitled_note(0), "Untitled.md");
    assert_eq!(untitled_note(1), "Untitled 1.md");
    assert_eq!(untitled_note(12), "Untitled 12.md");
    assert_eq!(new_folder_marker(0), "New folder/.keep.md");
    assert_eq!(new_folder_marker(3), "New folder 3/.keep.md");
}

#[test]
fn single_names_are_one_normal_part() {
    assert!(is_single_name("b.md"));
    assert!(is_single_name("b.md/"));
    assert!(is_single_name("..."));
    assert!(!is_single_name("a/b.md"));
    assert!(!is_single_name("./b.md"));
    assert!(!is_single_name("."));
    assert!(!is_single_name(".."));
    assert!(!is_single_name(""));
    assert!(!is_single_name("/b.md"));
}

#[test]
fn rename_stays_in_the_folder() {
    let to = rename_target(&vp("notes/a.md"), "b.md").unwrap();
    assert_eq!(to.as_path(), "notes/b.md");
    let to = rename_target(&vp("a.md"), "b.md").unwrap();
    assert_eq!(to.as_path(), "b.md");
    assert!(rename_target(&vp("a.md"), "..").is_none());
}

#[test]
fn transfer_puts_the_last_part_in_the_destination() {
    let to = transfer_target(&vp("notes/a.md"), "archive").unwrap();
    assert_eq!(to.as_path(), "archive/a.md");
    let to = transfer_target(&vp("notes/a.md"), "archive/").unwrap();
    assert_eq!(to.as_path(), "archive/a.md");
    let to = transfer_target(&vp("notes/a.md"), "").unwrap();
    assert_eq!(to.as_path(), "a.md");
    assert!(transfer_target(&vp("a.md"), "/abs").is_none());
    assert!(transfer_target(&vp("a.md"), "..").is_none());
}

#[test]
fn unsaved_open_files_are_guarded() {
    let a = vp("a.md");
    let b = vp("b.md");
    assert_eq!(mutation_check(Some(&a), &a, true, true), MutationCheck::UnsavedChanges);
    assert_eq!(mutation_check(Some(&a), &a, false, true), MutationCheck::Allowed);
    assert_eq!(mutation_check(Some(&a), &b, true, true), MutationCheck::Allowed);
    assert_eq!(mutation_check(None, &b, true, false), MutationCheck::NoVault);
    assert_eq!(mutation_check(Some(&a), &a, true, false), MutationCheck::UnsavedChanges);
}
