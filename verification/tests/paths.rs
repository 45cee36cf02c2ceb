use tap2tzx::target;

#[test]
fn replaces_tap_extension() {
    assert_eq!(b"game.tzx".to_vec(), target(b"game.tap"));
}

#[test]
fn keeps_directories() {
    assert_eq!(b"tapes/game.tzx".to_vec(), target(b"tapes/game.tap"));
    assert_eq!(b"/a/b/game.tzx".to_vec(), target(b"/a/b/game.TAP"));
}

#[test]
fn appends_when_no_extension() {
    assert_eq!(b"game.tzx".to_vec(), target(b"game"));
}

#[test]
fn replaces_only_the_last_extension() {
    assert_eq!(b"a.b.tzx".to_vec(), target(b"a.b.c"));
}

#[test]
fn leading_dot_is_no_extension() {
    assert_eq!(b".config.tzx".to_vec(), target(b".config"));
    assert_eq!(b"d/.config.tzx".to_vec(), target(b"d/.config"));
}

#[test]
fn dot_in_directory_is_no_extension() {
    assert_eq!(b"a.b/c.tzx".to_vec(), target(b"a.b/c"));
}

#[test]
fn hidden_file_with_extension() {
    assert_eq!(b".foo.tzx".to_vec(), target(b".foo.tap"));
}

#[test]
fn trailing_separators_are_ignored() {
    assert_eq!(b"a.tzx".to_vec(), target(b"a/"));
    assert_eq!(b"a//b.tzx".to_vec(), target(b"a//b//"));
    assert_eq!(b"dir/name.tzx".to_vec(), target(b"dir/name.tap/"));
}

#[test]
fn trailing_dot_components_are_ignored() {
    assert_eq!(b"foo.tzx".to_vec(), target(b"foo.txt/."));
    assert_eq!(b"a.tzx".to_vec(), target(b"a/./."));
    assert_eq!(b"a.tzx".to_vec(), target(b"a/."));
}

#[test]
fn paths_without_a_file_name_are_unchanged() {
    assert_eq!(b"".to_vec(), target(b""));
    assert_eq!(b".".to_vec(), target(b"."));
    assert_eq!(b"./".to_vec(), target(b"./"));
    assert_eq!(b"..".to_vec(), target(b".."));
    assert_eq!(b"a/..".to_vec(), target(b"a/.."));
    assert_eq!(b"a/../".to_vec(), target(b"a/../"));
    assert_eq!(b"/".to_vec(), target(b"/"));
    assert_eq!(b"//".to_vec(), target(b"//"));
}

#[test]
fn dotted_names_keep_their_stem() {
    // "b.." has stem "b." and an empty extension; "..." has stem "..".
    assert_eq!(b"b..tzx".to_vec(), target(b"b.."));
    assert_eq!(b"...tzx".to_vec(), target(b"..."));
}
