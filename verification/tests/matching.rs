use asset_tree::{AssetBound, AssetFileType, AssetProperties, AssetTreeNode};

fn file_bound(ext: &str) -> AssetBound {
    AssetBound::File { ty: AssetFileType { extension: ext.to_string() } }
}

fn dir_bound(collect: Vec<AssetBound>, defined: Vec<(&str, AssetBound)>) -> AssetBound {
    AssetBound::Directory {
        collect,
        defined: defined
            .into_iter()
            .map(|(name, inner)| AssetTreeNode { name: name.to_string(), inner })
            .collect(),
    }
}

fn file(ext: &str) -> AssetProperties {
    AssetProperties::File { ext: ext.to_string() }
}

fn dir(children: Vec<(&str, AssetProperties)>) -> AssetProperties {
    AssetProperties::Directory {
        children: children
            .into_iter()
            .map(|(name, inner)| AssetTreeNode { name: name.to_string(), inner })
            .collect(),
    }
}

#[test]
fn files_match_on_equal_extensions() {
    assert!(file("png").matches(&file_bound("png")));
    assert!(file("").matches(&file_bound("")));
}

#[test]
fn files_differ_on_unequal_extensions() {
    assert!(!file("png").matches(&file_bound("jpg")));
    assert!(!file("png").matches(&file_bound("PNG")));
    assert!(!file("png").matches(&file_bound("pn")));
    assert!(!file("").matches(&file_bound("png")));
}

#[test]
fn a_file_never_matches_a_directory() {
    assert!(!file("png").matches(&dir_bound(vec![], vec![])));
    assert!(!file("png").matches(&dir_bound(vec![file_bound("png")], vec![])));
}

#[test]
fn a_directory_never_matches_a_file() {
    assert!(!dir(vec![]).matches(&file_bound("png")));
    assert!(!dir(vec![("a", file("png"))]).matches(&file_bound("png")));
}

#[test]
fn an_empty_directory_matches_every_directory_bound() {
    assert!(dir(vec![]).matches(&dir_bound(vec![], vec![])));
    assert!(dir(vec![]).matches(&dir_bound(vec![file_bound("bp")], vec![])));
    // Required children need not be present for a match.
    assert!(dir(vec![]).matches(&dir_bound(vec![], vec![("must", file_bound("png"))])));
}

#[test]
fn children_are_accepted_by_a_collect_bound() {
    let bound = dir_bound(vec![file_bound("bp")], vec![]);
    assert!(dir(vec![("a", file("bp")), ("b", file("bp"))]).matches(&bound));
}

#[test]
fn one_stray_child_fails_the_directory() {
    let bound = dir_bound(vec![file_bound("bp")], vec![]);
    assert!(!dir(vec![("a", file("bp")), ("stray", file("txt"))]).matches(&bound));
}

#[test]
fn children_are_accepted_by_a_defined_entry_of_their_name() {
    let bound = dir_bound(vec![], vec![("my_texture", file_bound("png"))]);
    assert!(dir(vec![("my_texture", file("png"))]).matches(&bound));
}

#[test]
fn a_defined_entry_accepts_only_its_own_name() {
    let bound = dir_bound(vec![], vec![("my_texture", file_bound("png"))]);
    assert!(!dir(vec![("other", file("png"))]).matches(&bound));
}

#[test]
fn a_child_with_a_defined_name_and_another_shape_is_rejected() {
    let bound = dir_bound(vec![file_bound("bp")], vec![("config", file_bound("json"))]);
    // `config` is present as a directory: neither the entry nor a collect bound fits.
    assert!(!dir(vec![("config", dir(vec![]))]).matches(&bound));
    // ... and as a file of another extension.
    assert!(!dir(vec![("config", file("toml"))]).matches(&bound));
    // The same child with the declared shape is accepted.
    assert!(dir(vec![("config", file("json"))]).matches(&bound));
}

#[test]
fn a_child_may_be_accepted_by_either_rule() {
    let bound = dir_bound(vec![file_bound("json")], vec![("config", file_bound("json"))]);
    assert!(dir(vec![("config", file("json"))]).matches(&bound));
    // A collect bound accepts a child whose name is defined with another shape.
    let bound = dir_bound(vec![file_bound("toml")], vec![("config", file_bound("json"))]);
    assert!(dir(vec![("config", file("toml"))]).matches(&bound));
}

#[test]
fn any_collect_bound_may_accept() {
    let bound = dir_bound(vec![file_bound("a"), file_bound("b"), file_bound("c")], vec![]);
    assert!(dir(vec![("x", file("c")), ("y", file("a")), ("z", file("b"))]).matches(&bound));
    assert!(!dir(vec![("x", file("c")), ("y", file("d"))]).matches(&bound));
}

#[test]
fn matching_descends_into_nested_directories() {
    let plugin = dir_bound(vec![], vec![("manifest", file_bound("json"))]);
    let bound = dir_bound(vec![plugin], vec![("shaders", dir_bound(vec![file_bound("glsl")], vec![]))]);
    let good = dir(vec![
        ("shaders", dir(vec![("main", file("glsl"))])),
        ("first", dir(vec![("manifest", file("json"))])),
        ("second", dir(vec![])),
    ]);
    assert!(good.matches(&bound));
    let bad = dir(vec![("first", dir(vec![("manifest", file("yaml"))]))]);
    assert!(!bad.matches(&bound));
    let deep = dir(vec![("shaders", dir(vec![("main", file("txt"))]))]);
    assert!(!deep.matches(&bound));
}

#[test]
fn a_clone_of_a_bound_is_equal_to_it() {
    let plugin = dir_bound(vec![file_bound("x")], vec![("manifest", file_bound("json"))]);
    let bound = dir_bound(vec![plugin, file_bound("bp")], vec![("a", file_bound("png"))]);
    assert_eq!(bound.clone(), bound);
    let ty = AssetFileType { extension: "png".to_string() };
    assert_eq!(ty.clone(), ty);
    let node = AssetTreeNode { name: "n".to_string(), inner: file_bound("png") };
    assert_eq!(node.clone(), node);
}

#[test]
fn a_clone_of_properties_is_equal_to_them() {
    let props = dir(vec![("a", file("png")), ("d", dir(vec![("b", file("bp"))]))]);
    assert_eq!(props.clone(), props);
    assert!(props.clone().matches(&dir_bound(
        vec![file_bound("png"), dir_bound(vec![file_bound("bp")], vec![])],
        vec![]
    )));
}
