use asset_tree::loader::{collected, directory_node, file_node, readable};
use asset_tree::{AssetProperties, AssetTreeNode, Error, ErrorKind};

fn file(name: &str, ext: &str) -> AssetTreeNode<AssetProperties> {
    AssetTreeNode { name: name.to_string(), inner: AssetProperties::File { ext: ext.to_string() } }
}

#[test]
fn a_file_name_splits_at_its_last_dot() {
    assert_eq!(file_node("a.bp"), Some(file("a", "bp")));
    assert_eq!(file_node("my_shader.glsl"), Some(file("my_shader", "glsl")));
    assert_eq!(file_node("archive.tar.gz"), Some(file("archive.tar", "gz")));
}

#[test]
fn a_file_name_without_a_dot_has_no_extension() {
    assert_eq!(file_node("README"), None);
    assert_eq!(file_node(""), None);
}

#[test]
fn a_leading_dot_starts_no_extension() {
    assert_eq!(file_node(".gitignore"), None);
    assert_eq!(file_node("."), None);
    assert_eq!(file_node(".a.b"), Some(file(".a", "b")));
}

#[test]
fn a_trailing_dot_starts_an_empty_extension() {
    assert_eq!(file_node("a."), Some(file("a", "")));
    assert_eq!(file_node("a.b."), Some(file("a.b", "")));
}

#[test]
fn two_dots_are_no_file_name() {
    assert_eq!(file_node(".."), None);
    assert_eq!(file_node("..."), Some(file("..", "")));
}

#[test]
fn a_file_name_is_split_by_characters() {
    assert_eq!(file_node("été.données"), Some(file("été", "données")));
}

#[test]
fn the_split_agrees_with_the_path_functions_of_std() {
    let names = [
        "a.bp", "archive.tar.gz", "README", ".gitignore", ".a.b", "a.", "..", "...", "x.y.z", "",
        ".", "été.données", "a..b",
    ];
    for name in names {
        let path = std::path::Path::new(name);
        let expected = match (path.file_stem(), path.extension()) {
            (Some(stem), Some(ext)) => Some(file(&stem.to_string_lossy(), &ext.to_string_lossy())),
            _ => None,
        };
        assert_eq!(file_node(name), expected, "for {:?}", name);
    }
}

#[test]
fn readable_keeps_the_entries_that_were_read() {
    let entries: Vec<Result<u32, &str>> = vec![Ok(1), Err("x"), Ok(2), Err("y"), Ok(3)];
    assert_eq!(readable(entries), vec![1, 2, 3]);
    let none: Vec<Result<u32, &str>> = vec![Err("x"), Err("y")];
    assert_eq!(readable(none), Vec::<u32>::new());
    let empty: Vec<Result<u32, &str>> = vec![];
    assert_eq!(readable(empty), Vec::<u32>::new());
}

#[test]
fn collected_hands_out_everything_or_the_first_failure() {
    let all: Vec<Result<u32, &str>> = vec![Ok(1), Ok(2), Ok(3)];
    assert_eq!(collected(all), Ok(vec![1, 2, 3]));
    let some: Vec<Result<u32, &str>> = vec![Ok(1), Err("first"), Ok(2), Err("second")];
    assert_eq!(collected(some), Err("first"));
    let empty: Vec<Result<u32, &str>> = vec![];
    assert_eq!(collected(empty), Ok(vec![]));
}

#[test]
fn a_directory_node_holds_the_entries_of_its_listing() {
    let listing: Result<Vec<Result<_, Error<String>>>, Error<String>> =
        Ok(vec![Ok(file("a", "bp")), Ok(file("b", "bp"))]);
    let node = directory_node("blueprints".to_string(), listing).unwrap();
    assert_eq!(
        node,
        AssetTreeNode {
            name: "blueprints".to_string(),
            inner: AssetProperties::Directory { children: vec![file("a", "bp"), file("b", "bp")] },
        }
    );
}

#[test]
fn a_directory_that_cannot_be_listed_is_a_failed_node() {
    let listing: Result<Vec<Result<AssetTreeNode<AssetProperties>, Error<String>>>, Error<String>> =
        Err(Error::loader("root/locked".to_string(), "denied".to_string()));
    let failure = directory_node("locked".to_string(), listing).unwrap_err();
    assert_eq!(failure.message("denied"), "Error loading asset at root/locked: denied");
    assert!(matches!(failure.kind, ErrorKind::Loader(cause) if cause == "denied"));
}

#[test]
fn the_first_failed_entry_fails_the_directory_node() {
    let listing: Result<Vec<Result<_, Error<String>>>, Error<String>> = Ok(vec![
        Ok(file("a", "bp")),
        Err(Error::loader("root/d/x".to_string(), "first".to_string())),
        Err(Error::loader("root/d/y".to_string(), "second".to_string())),
    ]);
    let failure = directory_node("d".to_string(), listing).unwrap_err();
    assert!(matches!(failure.kind, ErrorKind::Loader(cause) if cause == "first"));
}
