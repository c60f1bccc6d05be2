use rofi_obsidian::display_name::make_unique;

#[test]
fn different_name_same_path() {
    let vaults = vec![
        String::from("~/Documents/personal"),
        String::from("~/Documents/work"),
    ];

    let names = make_unique(vaults);

    assert_eq!(names[0], "personal");
    assert_eq!(names[1], "work");
}

#[test]
fn same_name_different_parent() {
    let vaults = vec![
        String::from("~/Downloads/personal"),
        String::from("~/Documents/personal"),
    ];

    let names = make_unique(vaults);

    assert_eq!(names[0], "Downloads/personal");
    assert_eq!(names[1], "Documents/personal");
}

#[test]
fn same_name_same_parent() {
    let vaults = vec![
        String::from("~/Downloads/vaults/personal"),
        String::from("~/Documents/vaults/personal"),
    ];

    let names = make_unique(vaults);

    assert_eq!(names[0], "Downloads/vaults/personal");
    assert_eq!(names[1], "Documents/vaults/personal");
}

#[test]
fn many() {
    let vaults = vec![
        String::from("~/Downloads/vaults/personal"),
        String::from("~/Documents/vaults/personal"),
        String::from("~/Downloads/personal"),
        String::from("~/Documents/personal"),
        String::from("~/Documents/work"),
    ];

    let names = make_unique(vaults);

    assert_eq!(names[0], "Downloads/vaults/personal");
    assert_eq!(names[1], "Documents/vaults/personal");
    assert_eq!(names[2], "Downloads/personal");
    assert_eq!(names[3], "Documents/personal");
    assert_eq!(names[4], "work");
}

#[test]
fn single_path_keeps_everything() {
    let vaults = vec![String::from("~/Documents/personal")];

    let names = make_unique(vaults);

    assert_eq!(names, vec![String::from("~/Documents/personal")]);
}

#[test]
fn absolute_single_path_rejoins_to_itself() {
    // A lone absolute path keeps all of its components, the root one
    // included, and rejoining gives back the original path.
    let vaults = vec![String::from("/a/b")];

    let names = make_unique(vaults);

    assert_eq!(names, vec![String::from("/a/b")]);
}

#[test]
fn divergence_at_the_root_keeps_a_clean_join() {
    // The two paths differ only above the shared leaf, so one keeps its root
    // component: the root contributes a single separator, no doubled one.
    let vaults = vec![String::from("/v"), String::from("w/v")];

    let names = make_unique(vaults);

    assert_eq!(names[0], "/v");
    assert_eq!(names[1], "w/v");
}

#[test]
fn empty_input_gives_empty_output() {
    let names = make_unique(vec![]);

    assert!(names.is_empty());
}

#[test]
fn output_keeps_length_and_order() {
    let vaults = vec![
        String::from("~/a/x"),
        String::from("~/b/x"),
        String::from("~/c/x"),
    ];

    let names = make_unique(vaults);

    assert_eq!(names.len(), 3);
    assert_eq!(names, vec!["a/x", "b/x", "c/x"]);
}

#[test]
fn verbatim_duplicates_share_a_name() {
    let vaults = vec![
        String::from("~/vaults/personal"),
        String::from("~/vaults/personal"),
    ];

    let names = make_unique(vaults);

    assert_eq!(names[0], names[1]);
}

#[test]
fn suffix_subset_paths_share_a_name() {
    let vaults = vec![String::from("personal"), String::from("work/personal")];

    let names = make_unique(vaults);

    assert_eq!(names[0], "personal");
    assert_eq!(names[1], "personal");
}

#[test]
fn leaf_difference_needs_one_component() {
    let vaults = vec![String::from("/srv/a"), String::from("/srv/b")];

    let names = make_unique(vaults);

    assert_eq!(names[0], "a");
    assert_eq!(names[1], "b");
}
