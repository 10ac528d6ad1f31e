use catalyst::asset::blockstate::{BlockModel, BlockState, BlockStateFormat, ModelChoice, Multipart};
use catalyst::asset::lang::Lang;
use catalyst::asset::model::{sort_overrides, Model, Override, Predicate, Side};
use catalyst::asset::other::Other;
use catalyst::asset::texture::Texture;
use catalyst::asset::{Asset, Warning};
use catalyst::conflict::Conflict;
use catalyst::error::Error;
use catalyst::index::{from_index, into_index, Index};
use catalyst::namespace::{Kind, Namespace};

fn ns(s: &str) -> Namespace {
    Namespace::parse(s).unwrap()
}

fn lang(pairs: &[(&str, &str)]) -> Lang {
    Lang {
        path: "assets/minecraft/lang/en_us.json".to_string(),
        data: pairs.iter().map(|(k, v)| (k.to_string(), v.to_string())).collect(),
    }
}

fn lookup(l: &Lang, key: &str) -> Option<String> {
    l.data.iter().find(|(k, _)| k == key).map(|(_, v)| v.clone())
}

fn over(cmd: Option<u64>, model: &str) -> Override {
    Override { predicate: Predicate { custom_model_data: cmd, others: vec![] }, model: ns(model) }
}

fn model(pid: usize, parent: Option<&str>, overrides: Option<Vec<Override>>) -> Model {
    Model {
        pid,
        parent: parent.map(ns),
        ambientocclusion: None,
        display: None,
        textures: None,
        elements: None,
        gui_light: None,
        overrides,
    }
}

#[test]
fn lang_merge_is_right_biased_with_one_conflict_per_shared_key() {
    let (merged, conflicts) = lang(&[("a", "1")]).merge(lang(&[("a", "2"), ("b", "3")]));
    assert_eq!(merged.data.len(), 2);
    assert_eq!(lookup(&merged, "a"), Some("2".to_string()));
    assert_eq!(lookup(&merged, "b"), Some("3".to_string()));
    assert_eq!(conflicts.len(), 1);
    assert_eq!(conflicts[0].key, "a");
    assert_eq!(conflicts[0].from, "1");
    assert_eq!(conflicts[0].to, "2");
}

#[test]
fn lang_merge_without_shared_keys_reports_nothing() {
    let (merged, conflicts) = lang(&[("x", "1")]).merge(lang(&[("y", "2")]));
    assert_eq!(merged.data.len(), 2);
    assert!(conflicts.is_empty());
}

#[test]
fn model_merge_keeps_every_override_sorted() {
    let mut a = model(0, Some("block/a_parent"), Some(vec![over(Some(1), "item/a")]));
    a.ambientocclusion = Some(true);
    let mut b = model(1, Some("block/b_parent"), Some(vec![over(Some(1), "item/b"), over(Some(2), "item/c")]));
    b.gui_light = Some(Side::Front);
    b.textures = Some(vec![("layer0".to_string(), ns("item/b_tex"))]);
    let (m, clashes) = a.merge(b);
    let o = m.overrides.unwrap();
    assert_eq!(o.len(), 3);
    assert_eq!(o[0].predicate.custom_model_data, Some(1));
    assert_eq!(o[0].model, ns("item/a"));
    assert_eq!(o[1].predicate.custom_model_data, Some(1));
    assert_eq!(o[1].model, ns("item/b"));
    assert_eq!(o[2].predicate.custom_model_data, Some(2));
    assert_eq!(o[2].model, ns("item/c"));
    assert_eq!(clashes.len(), 1);
    assert_eq!(clashes[0].custom_model_data, 1);
    assert_eq!(clashes[0].first, ns("item/a"));
    assert_eq!(clashes[0].second, ns("item/b"));
    assert_eq!(m.pid, 1);
    assert_eq!(m.parent, Some(ns("block/b_parent")));
    assert_eq!(m.ambientocclusion, None);
    assert_eq!(m.gui_light, Some(Side::Front));
    assert_eq!(m.textures.unwrap()[0].1, ns("item/b_tex"));
}

#[test]
fn model_merge_without_overrides_has_none() {
    let (m, clashes) = model(0, None, None).merge(model(1, None, None));
    assert!(m.overrides.is_none());
    assert!(clashes.is_empty());
}

#[test]
fn overrides_sort_by_data_then_model() {
    let sorted = sort_overrides(vec![
        over(Some(3), "a"),
        over(None, "z"),
        over(Some(1), "m"),
        over(Some(1), "b"),
        over(None, "c"),
    ]);
    let keys: Vec<(Option<u64>, String)> =
        sorted.iter().map(|o| (o.predicate.custom_model_data, o.model.path.clone())).collect();
    assert_eq!(
        keys,
        vec![
            (None, "c".to_string()),
            (None, "z".to_string()),
            (Some(1), "b".to_string()),
            (Some(1), "m".to_string()),
            (Some(3), "a".to_string()),
        ]
    );
}

#[test]
fn model_relation_lists_parent_textures_and_overrides() {
    let mut m = model(4, Some("block/cube"), Some(vec![over(Some(1), "boomber:item/wand")]));
    m.textures = Some(vec![("all".to_string(), ns("block/stone"))]);
    let paths: Vec<String> = m.relation().into_iter().map(|i| i.path).collect();
    assert_eq!(
        paths,
        vec![
            "assets/minecraft/models/block/cube.json".to_string(),
            "assets/minecraft/textures/block/stone.png".to_string(),
            "assets/boomber/models/item/wand.json".to_string(),
        ]
    );
    assert!(m.relation().iter().all(|i| i.pid == 4));
}

#[test]
fn model_modify_relation_moves_matching_references_only() {
    let mut m = model(0, Some("modx:special"), Some(vec![over(Some(1), "modx:special")]));
    m.textures = Some(vec![("t".to_string(), ns("modx:special"))]);
    let from = Index::new(0, "assets/modx/models/special.json");
    let to = Index::new(0, "assets/modx/models/special_1.json");
    let r = m.modify_relation(&from, &to);
    assert_eq!(r.parent, Some(ns("modx:special_1")));
    assert_eq!(r.overrides.unwrap()[0].model, ns("modx:special_1"));
    assert_eq!(r.textures.unwrap()[0].1, ns("modx:special"));
}

#[test]
fn modify_relation_fails_open_on_unreadable_target() {
    let m = model(0, Some("modx:special"), None);
    let from = Index::new(0, "assets/modx/models/special.json");
    let to = Index::new(0, "short");
    let r = m.modify_relation(&from, &to);
    assert_eq!(r.parent, Some(ns("modx:special")));
}

fn block(name: &str) -> BlockModel {
    BlockModel { model: ns(name), x: Some(90), y: None, uvlock: None, weight: None }
}

#[test]
fn blockstate_variants_relation_and_rename() {
    let b = BlockState {
        pid: 2,
        data: BlockStateFormat::Variants(vec![
            ("".to_string(), ModelChoice::Single(block("modx:special"))),
            ("facing=up".to_string(), ModelChoice::Multiple(vec![block("block/stone"), block("modx:special")])),
        ]),
    };
    let paths: Vec<String> = b.relation().into_iter().map(|i| i.path).collect();
    assert_eq!(
        paths,
        vec![
            "assets/modx/models/special.json".to_string(),
            "assets/minecraft/models/block/stone.json".to_string(),
            "assets/modx/models/special.json".to_string(),
        ]
    );
    let from = Index::new(2, "assets/modx/models/special.json");
    let to = Index::new(2, "assets/modx/models/pack_2/special.json");
    let r = b.modify_relation(&from, &to);
    let paths: Vec<String> = r.relation().into_iter().map(|i| i.path).collect();
    assert_eq!(
        paths,
        vec![
            "assets/modx/models/pack_2/special.json".to_string(),
            "assets/minecraft/models/block/stone.json".to_string(),
            "assets/modx/models/pack_2/special.json".to_string(),
        ]
    );
}

#[test]
fn blockstate_multipart_relation() {
    let b = BlockState {
        pid: 0,
        data: BlockStateFormat::Multipart(vec![
            Multipart { when: None, apply: ModelChoice::Single(block("block/a")) },
            Multipart { when: Some("{\"up\":\"true\"}".to_string()), apply: ModelChoice::Single(block("block/b")) },
        ]),
    };
    assert_eq!(b.relation().len(), 2);
    assert_eq!(b.relation()[1].path, "assets/minecraft/models/block/b.json");
}

#[test]
fn merging_different_kinds_is_incompatible() {
    let a = Asset::Texture(Texture::new(vec![1, 2]));
    let b = Asset::Other(Other::new(vec![3]));
    assert!(matches!(a.merge(b), Err(Error::IncompatibleFile)));
}

#[test]
fn merging_blockstates_is_incompatible() {
    let a = Asset::BlockState(BlockState { pid: 0, data: BlockStateFormat::Variants(vec![]) });
    let b = Asset::BlockState(BlockState { pid: 1, data: BlockStateFormat::Variants(vec![]) });
    assert!(matches!(a.merge(b), Err(Error::IncompatibleFile)));
}

#[test]
fn merging_textures_keeps_the_later() {
    let a = Asset::Texture(Texture::new(vec![1, 2]));
    let b = Asset::Texture(Texture::new(vec![3]));
    match a.merge(b) {
        Ok((Asset::Texture(t), w)) => {
            assert_eq!(t.data(), vec![3]);
            assert!(w.is_empty());
        }
        _ => panic!("expected a texture"),
    }
}

#[test]
fn lang_assets_merge_with_key_warnings() {
    let a = Asset::Lang(lang(&[("a", "1")]));
    let b = Asset::Lang(lang(&[("a", "2")]));
    match a.merge(b) {
        Ok((Asset::Lang(l), w)) => {
            assert_eq!(lookup(&l, "a"), Some("2".to_string()));
            assert_eq!(w.len(), 1);
            assert!(matches!(&w[0], Warning::Key(c) if c.key == "a"));
        }
        _ => panic!("expected a language table"),
    }
}

#[test]
fn conflict_solving_folds_left_in_discovery_order() {
    let m1 = model(0, Some("block/one"), Some(vec![over(Some(5), "item/x")]));
    let m2 = model(1, Some("block/two"), Some(vec![over(Some(1), "item/y")]));
    let m3 = model(2, Some("block/three"), None);
    let c = Conflict::new(vec![Asset::Model(m1), Asset::Model(m2), Asset::Model(m3)]);
    match c.solve() {
        Ok((Asset::Model(m), w)) => {
            assert_eq!(m.pid, 2);
            assert_eq!(m.parent, Some(ns("block/three")));
            let o = m.overrides.unwrap();
            assert_eq!(o.len(), 2);
            assert_eq!(o[0].model, ns("item/y"));
            assert_eq!(o[1].model, ns("item/x"));
            assert!(w.is_empty());
        }
        _ => panic!("expected a model"),
    }
    let mut reversed = Conflict::with_resource(Asset::Model(model(2, Some("block/three"), None)));
    reversed.add(Asset::Model(model(0, Some("block/one"), None)));
    match reversed.solve() {
        Ok((Asset::Model(m), _)) => assert_eq!(m.parent, Some(ns("block/one"))),
        _ => panic!("expected a model"),
    }
}

#[test]
fn conflict_with_mixed_kinds_fails() {
    let c = Conflict::new(vec![
        Asset::Model(model(0, None, None)),
        Asset::Model(model(1, None, None)),
        Asset::Lang(lang(&[])),
    ]);
    assert!(matches!(c.solve(), Err(Error::IncompatibleFile)));
}

#[test]
fn index_conversions() {
    let i = into_index(Kind::Texture, &ns("boomber:item/wand"), 3);
    assert_eq!(i.pid, 3);
    assert_eq!(i.path, "assets/boomber/textures/item/wand.png");
    assert_eq!(from_index(&i).unwrap(), ns("boomber:item/wand"));
}

#[test]
fn rename_moves_into_a_pack_folder() {
    assert_eq!(
        Index::new(1, "assets/modx/models/special.json").rename().path,
        "assets/modx/models/pack_1/special.json"
    );
    assert_eq!(Index::new(42, "foo").rename().path, "pack_42/foo");
    assert_eq!(Index::new(105, "a.b/c.json").rename().path, "a.b/pack_105/c.json");
    assert_eq!(Index::new(7, "x").with_pid(9).pid, 9);
}

#[test]
fn modify_relation_fails_open_on_unreadable_source() {
    let m = model(0, Some("modx:special"), None);
    let from = Index::new(0, "assets/modx/models/.json");
    let to = Index::new(0, "assets/modx/models/other.json");
    assert_eq!(m.modify_relation(&from, &to).parent, Some(ns("modx:special")));
}

#[test]
fn modify_relation_to_the_same_identifier_changes_nothing() {
    let m = model(0, Some("modx:special"), Some(vec![over(Some(1), "modx:special")]));
    let from = Index::new(0, "assets/modx/models/special.json");
    let r = m.modify_relation(&from, &from);
    assert_eq!(r.parent, Some(ns("modx:special")));
    assert_eq!(r.overrides.unwrap()[0].model, ns("modx:special"));
}

#[test]
fn every_clashing_pair_is_reported() {
    let a = model(0, None, Some(vec![over(Some(1), "x:a")]));
    let b = model(1, None, Some(vec![over(Some(1), "x:b"), over(Some(1), "x:c")]));
    let (_, clashes) = a.merge(b);
    let pairs: Vec<(String, String)> =
        clashes.iter().map(|c| (c.first.identifier(), c.second.identifier())).collect();
    assert_eq!(
        pairs,
        vec![
            ("x:a".to_string(), "x:b".to_string()),
            ("x:a".to_string(), "x:c".to_string()),
            ("x:b".to_string(), "x:c".to_string()),
        ]
    );
}

#[test]
fn equal_overrides_keep_their_order() {
    let mut first = over(Some(2), "item/same");
    first.predicate.others = vec![("pulling".to_string(), "1".to_string())];
    let mut second = over(Some(2), "item/same");
    second.predicate.others = vec![("pulling".to_string(), "0".to_string())];
    let a = model(0, None, Some(vec![first]));
    let b = model(1, None, Some(vec![over(Some(1), "item/z"), second]));
    let (m, clashes) = a.merge(b);
    let o = m.overrides.unwrap();
    assert_eq!(o[0].model, ns("item/z"));
    assert_eq!(o[1].predicate.others[0].1, "1");
    assert_eq!(o[2].predicate.others[0].1, "0");
    assert!(clashes.is_empty());
}

#[test]
fn lone_overrides_are_sorted() {
    let a = model(0, None, None);
    let b = model(1, None, Some(vec![over(Some(3), "item/c"), over(Some(1), "item/a")]));
    let (m, _) = a.merge(b);
    let o = m.overrides.unwrap();
    assert_eq!(o[0].model, ns("item/a"));
    assert_eq!(o[1].model, ns("item/c"));
}

#[test]
fn empty_conflict_fails() {
    assert!(matches!(Conflict::new(vec![]).solve(), Err(Error::EmptyConflict)));
}
