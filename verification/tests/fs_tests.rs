use kic::fs::{
    file_name_of, is_hidden_name, parent_of, supply_current_dir_prefix, trim_end_separator,
};

#[test]
fn is_hidden_name_should_return_true() {
    let file_names = [".a", ".ab", ".abc", "..a", "..."];
    for file_name in &file_names {
        assert!(is_hidden_name(file_name));
    }
}

#[test]
fn is_hidden_name_should_return_false() {
    let file_names = ["", ".", "..", "a", "ab", "abc"];
    for file_name in &file_names {
        assert!(!is_hidden_name(file_name));
    }
}

#[test]
fn supply_current_dir_prefix_should_return_added() {
    let path_names = [("./a", "a"), ("./a/", "a/"), ("./a/b", "a/b")];
    for &(correct, input) in &path_names {
        assert_eq!(correct.to_string(), supply_current_dir_prefix(input));
    }
}

#[test]
fn supply_current_dir_prefix_should_return_as_it_is() {
    let path_names = ["/", "/a", ".", "./", "./a", "././a"];
    for path_name in &path_names {
        assert_eq!(path_name.to_string(), supply_current_dir_prefix(path_name));
    }
}

#[test]
fn trim_end_separator_should_return_trimmed() {
    let path_names = [("a", "a/"), ("a", "a//"), ("./a", "./a/"), ("./a", "./a//")];
    for &(correct, input) in &path_names {
        assert_eq!(correct.to_string(), trim_end_separator(input));
    }
}

#[test]
fn trim_end_separator_should_return_as_it_is() {
    let path_names = ["a", "./a", "./a/b"];
    for path_name in &path_names {
        assert_eq!(path_name.to_string(), trim_end_separator(path_name));
    }
}

#[test]
fn parent_of_should_split_at_last_separator() {
    assert_eq!(Some("./a/b".to_string()), parent_of("./a/b/f"));
    assert_eq!(Some(".".to_string()), parent_of("./a"));
    assert_eq!(None, parent_of("plain"));
    assert_eq!("f".to_string(), file_name_of("./a/b/f"));
    assert_eq!("plain".to_string(), file_name_of("plain"));
}
