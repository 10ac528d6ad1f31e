use catalyst::namespace::{Kind, Namespace, NamespaceError};
use std::cmp::Ordering;
use std::convert::TryFrom;

#[test]
fn namespace_1() {
    let result = Namespace::try_from("boomber:megumin").unwrap();
    let expect = Namespace::new("boomber", "megumin");
    assert_eq!(result, expect);
}

#[test]
fn namespace_2() {
    let result = Namespace::try_from("block/grass_block").unwrap();
    let expect = Namespace::new("minecraft", "block/grass_block");
    assert_eq!(result, expect);
}

#[test]
fn namespace_3() {
    let result = Namespace::try_from("korone:with/slash/in/the/path").unwrap();
    let expect = Namespace::new("korone", "with/slash/in/the/path");
    assert_eq!(result, expect);
}

#[test]
fn namespace_8() {
    let result = Namespace::try_from("bar:code").unwrap();
    let expect = Namespace::new("bar", "code");
    assert_eq!(result, expect);
}

#[test]
fn namespace_9() {
    let result = Namespace::try_from("minecraft:zombie").unwrap();
    let expect = Namespace::new("minecraft", "zombie");
    assert_eq!(result, expect);
}

#[test]
fn namespace_10() {
    let result = Namespace::try_from("diamond").unwrap();
    let expect = Namespace::new("minecraft", "diamond");
    assert_eq!(result, expect);
}

#[test]
fn namespace_12() {
    let result = Namespace::try_from("minecraft/villager").unwrap();
    let expect = Namespace::new("minecraft", "minecraft/villager");
    assert_eq!(result, expect);
}

#[test]
fn namespace_13() {
    let result = Namespace::try_from("mypack_recipe").unwrap();
    let expect = Namespace::new("minecraft", "mypack_recipe");
    assert_eq!(result, expect);
}

#[test]
#[should_panic]
fn namespace_4() {
    Namespace::try_from("").unwrap();
}

#[test]
#[should_panic]
fn namespace_5() {
    Namespace::try_from("with:too:many:colon").unwrap();
}

#[test]
#[should_panic]
fn namespace_6() {
    Namespace::try_from("InvalidCharacter").unwrap();
}

#[test]
#[should_panic]
fn namespace_7() {
    Namespace::try_from("with space: in the name").unwrap();
}

#[test]
#[should_panic]
fn namespace_11() {
    Namespace::try_from("foo/bar:coal").unwrap();
}

#[test]
#[should_panic]
fn namespace_14() {
    Namespace::try_from("mymap:schr√∂dingers_var").unwrap();
}

#[test]
#[should_panic]
fn namespace_15() {
    Namespace::try_from("custom_pack:Capital").unwrap();
}

#[test]
fn namespace_16() {
    let result = Namespace::from_path("assets/minecraft/models/item/diamond_sword.json").unwrap();
    let expect = Namespace::new("minecraft", "item/diamond_sword");
    assert_eq!(result, expect);
}

#[test]
fn namespace_17() {
    let result = Namespace::from_path("assets/minecraft/").unwrap_err();
    let expect = NamespaceError::PathTooShort;
    assert_eq!(result, expect);
}

#[test]
fn namespace_18() {
    let result = Namespace::from_path("assets/minecraft/models").unwrap_err();
    let expect = NamespaceError::PathTooShort;
    assert_eq!(result, expect);
}

#[test]
fn namespace_19() {
    let result = Namespace::from_path("assets/boomber/models/megumin").unwrap();
    let expect = Namespace::new("boomber", "megumin");
    assert_eq!(result, expect);
}

#[test]
fn namespace_20() {
    let result = Namespace::from_path("assets/boomber/textures/megumin").unwrap();
    let expect = Namespace::new("boomber", "megumin");
    assert_eq!(result, expect);
}

#[test]
fn to_path_of_each_kind() {
    let ns = Namespace::new("boomber", "item/wand");
    assert_eq!(ns.to_path(Kind::Model), "assets/boomber/models/item/wand.json");
    assert_eq!(ns.to_path(Kind::Texture), "assets/boomber/textures/item/wand.png");
    assert_eq!(ns.to_path(Kind::BlockState), "assets/boomber/blockstates/item/wand.json");
    assert_eq!(ns.to_path(Kind::Lang), "assets/boomber/lang/item/wand.json");
    assert_eq!(ns.to_path(Kind::Font), "assets/boomber/font/item/wand.json");
}

#[test]
fn path_round_trip_for_every_kind() {
    let ids = [("minecraft", "block/grass_block"), ("a.b", "x.y/z.w"), ("#tag", "deep/er/path")];
    let kinds = [Kind::BlockState, Kind::Model, Kind::Texture, Kind::Lang, Kind::Font];
    for (h, p) in ids.iter() {
        for k in kinds.iter() {
            let ns = Namespace::new(h, p);
            let back = Namespace::from_path(&ns.to_path(*k)).unwrap();
            assert_eq!(back, ns);
        }
    }
}

#[test]
fn path_with_empty_name_is_invalid() {
    let err = Namespace::from_path("assets/minecraft/models/.json").unwrap_err();
    assert_eq!(err, NamespaceError::InvalidNamespace);
}

#[test]
fn path_outside_the_grammar_is_invalid() {
    assert_eq!(Namespace::from_path("assets/MyPack/models/x.json").unwrap_err(), NamespaceError::InvalidNamespace);
    assert_eq!(Namespace::from_path("assets/a/models/Big.json").unwrap_err(), NamespaceError::InvalidNamespace);
}

#[test]
fn identifier_text_reads_back() {
    for text in ["boomber:megumin", "korone:with/slash/in/the/path", "a.b:c#d"] {
        let ns = Namespace::try_from(text).unwrap();
        assert_eq!(Namespace::try_from(ns.identifier().as_str()).unwrap(), ns);
    }
}

#[test]
fn identifier_text() {
    let ns = Namespace::try_from("korone:dog").unwrap();
    assert_eq!(ns.identifier(), "korone:dog");
    let short = Namespace::try_from("stone").unwrap();
    assert_eq!(short.identifier(), "minecraft:stone");
}

#[test]
fn namespaces_order_by_header_then_path() {
    let a = Namespace::new("a", "z");
    let b = Namespace::new("b", "a");
    let c = Namespace::new("b", "b");
    assert_eq!(a.compare(&b), Ordering::Less);
    assert_eq!(b.compare(&c), Ordering::Less);
    assert_eq!(c.compare(&a), Ordering::Greater);
    assert_eq!(c.compare(&c), Ordering::Equal);
}
