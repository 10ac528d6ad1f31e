use catalyst::source::{Source, StripPrefixError};
use catalyst::utils::{bom_fix, bom_fix_vec, ResourcePath};
use std::collections::HashSet;

#[test]
fn create_new_source() {
    let actual = Source::from_parent("/foo/bar", "/foo/bar/assets/minecraft/functions/hello.mcfunction");
    let expect = Source::new_virtual("assets/minecraft/functions/hello.mcfunction");
    assert_eq!(actual, Ok(expect));
}

#[test]
#[should_panic]
fn empty_source() {
    Source::from_parent("/foo", "").unwrap();
}

#[test]
fn direct_source() {
    let actual = Source::from_parent("", "assets/minecraft/tags/functions/tick.json");
    let expect = Source::new_virtual("assets/minecraft/tags/functions/tick.json");
    assert_eq!(actual, Ok(expect));
}

#[test]
fn hashing_source() {
    let mut map = HashSet::new();
    map.insert(Source::new_origin("assets/minecraft", "/foo/bar/assets/minecraft"));

    assert!(map.contains(&Source::new_origin("assets/minecraft", "/baz/assets/minecraft")));
}

#[test]
#[should_panic]
fn hashing_invalid_source() {
    let mut map = HashSet::new();
    map.insert(Source::new_origin("assets/minecraft", "/foo/bar/assets/minecraft"));

    assert!(map.contains(&Source::new_origin("assets/minecraft/tags", "/baz/assets/minecraft/tags")));
}

#[test]
fn source_outside_parent_is_refused() {
    assert_eq!(Source::from_parent("/foo/bar", "/foo/barbaz/x.json"), Err(StripPrefixError));
    let s = Source::from_parent("/foo/bar", "/foo/bar/x.json").unwrap();
    assert_eq!(s.origin, "/foo/bar/x.json");
    assert_eq!(s.relative, "x.json");
}

#[test]
fn from_parent_compares_components() {
    assert_eq!(Source::from_parent("/foo/bar/", "/foo/bar/x.json").unwrap().relative, "x.json");
    assert_eq!(Source::from_parent("/foo", "/foo//bar/./x.json").unwrap().relative, "bar/x.json");
    assert_eq!(Source::from_parent("./foo", "foo/x").unwrap().relative, "x");
    assert_eq!(Source::from_parent("", "/a/b").unwrap().relative, "/a/b");
    assert_eq!(Source::from_parent("/foo", "foo/x"), Err(StripPrefixError));
}

#[test]
fn resource_path_join() {
    let root = ResourcePath::from_directory("/packs/a");
    let child = root.join("assets/minecraft");
    assert_eq!(child.physical, "/packs/a/assets/minecraft");
    assert_eq!(child.origin, "/packs/a/assets/minecraft");
    assert!(!child.is_temp);
    let tmp = ResourcePath::from_compress_file("/tmp/x", "/packs/b.zip");
    assert!(tmp.is_temp);
    let inner = tmp.join("pack.mcmeta");
    assert_eq!(inner.physical, "/tmp/x/pack.mcmeta");
    assert_eq!(inner.origin, "/packs/b.zip/pack.mcmeta");
    assert!(!inner.is_temp);
    assert_eq!(root.join("/abs").physical, "/abs");
}

#[test]
fn byte_order_marks_are_removed() {
    assert_eq!(bom_fix("\u{feff}\u{feff}{}".to_string()), "{}");
    assert_eq!(bom_fix("{}".to_string()), "{}");
    assert_eq!(bom_fix_vec(&[0xEF, 0xBB, 0xBF, b'{', b'}']), b"{}");
    assert_eq!(bom_fix_vec(b"{}"), b"{}");
}
