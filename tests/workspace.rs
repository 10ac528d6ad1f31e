use catalyst::asset::blockstate::{BlockModel, BlockState, BlockStateFormat, ModelChoice};
use catalyst::asset::lang::Lang;
use catalyst::asset::model::Model;
use catalyst::asset::other::Other;
use catalyst::asset::Asset;
use catalyst::classify::{
    blockstate_folder, decide_kind, decide_strategy, lang_folder, minecraft_folder, models_folder,
    pack_meta, resource_kind, strategy, texture_folder, ResourceKind, Strategy,
};
use catalyst::error::Error;
use catalyst::namespace::Namespace;
use catalyst::workspace::{Project, Resolved, Workspace};

fn ns(s: &str) -> Namespace {
    Namespace::parse(s).unwrap()
}

fn model(pid: usize, parent: &str) -> Asset {
    Asset::Model(Model {
        pid,
        parent: Some(ns(parent)),
        ambientocclusion: None,
        display: None,
        textures: None,
        elements: None,
        gui_light: None,
        overrides: None,
    })
}

fn blockstate(pid: usize, target: &str) -> Asset {
    Asset::BlockState(BlockState {
        pid,
        data: BlockStateFormat::Variants(vec![(
            "".to_string(),
            ModelChoice::Single(BlockModel { model: ns(target), x: None, y: None, uvlock: None, weight: None }),
        )]),
    })
}

fn lang(pairs: &[(&str, &str)]) -> Asset {
    Asset::Lang(Lang {
        path: "assets/minecraft/lang/en_us.json".to_string(),
        data: pairs.iter().map(|(k, v)| (k.to_string(), v.to_string())).collect(),
    })
}

fn project(files: Vec<(&str, Asset)>) -> Project {
    Project { files: files.into_iter().map(|(p, a)| (p.to_string(), a)).collect() }
}

fn entry<'a>(entries: &'a [Resolved], path: &str) -> &'a Resolved {
    entries.iter().find(|e| e.path == path).expect("missing output path")
}

fn block_target(a: &Asset) -> Namespace {
    match a {
        Asset::BlockState(b) => match &b.data {
            BlockStateFormat::Variants(v) => match &v[0].1 {
                ModelChoice::Single(m) => m.model.clone(),
                _ => panic!("expected one model"),
            },
            _ => panic!("expected variants"),
        },
        _ => panic!("expected a block state"),
    }
}

fn parent(a: &Asset) -> Namespace {
    match a {
        Asset::Model(m) => m.parent.clone().unwrap(),
        _ => panic!("expected a model"),
    }
}

#[test]
fn patterns_classify_paths() {
    assert!(minecraft_folder("assets/minecraft/models/block/stone.json"));
    assert!(!minecraft_folder("assets/modx/models/block/stone.json"));
    assert!(models_folder("assets/modx/models/item/a.json"));
    assert!(!models_folder("assets/modx/models/item/a.png"));
    assert!(lang_folder("assets/minecraft/lang/en_us.json"));
    assert!(texture_folder("assets/modx/textures/block/a.png"));
    assert!(pack_meta("pack.mcmeta"));
    assert!(blockstate_folder("assets/minecraft/blockstates/stone.json"));
}

#[test]
fn strategies_follow_the_table() {
    assert_eq!(strategy("assets/minecraft/models/block/stone.json"), Strategy::Merge);
    assert_eq!(strategy("assets/modx/models/item/special.json"), Strategy::Rename);
    assert_eq!(strategy("assets/modx/textures/item/special.png"), Strategy::Rename);
    assert_eq!(strategy("assets/minecraft/lang/en_us.json"), Strategy::Merge);
    assert_eq!(strategy("pack.mcmeta"), Strategy::Merge);
    assert_eq!(strategy("assets/minecraft/blockstates/stone.json"), Strategy::Replace);
    assert_eq!(strategy("assets/minecraft/textures/block/stone.png"), Strategy::Replace);
    assert_eq!(strategy("assets/minecraft/sounds.json"), Strategy::Replace);
    assert_eq!(decide_strategy(true, true, false, false, false), Strategy::Merge);
    assert_eq!(decide_strategy(false, false, false, true, false), Strategy::Rename);
    assert_eq!(decide_strategy(true, false, false, true, false), Strategy::Replace);
    assert_eq!(decide_strategy(false, false, true, false, false), Strategy::Merge);
}

#[test]
fn model_path_kind() {
    assert_eq!(resource_kind("assets/boomber/models/test/hello.json"), ResourceKind::Model);
}

#[test]
fn texture_path_kind() {
    assert_eq!(resource_kind("assets/boomber/textures/item/test.png"), ResourceKind::Texture);
}

#[test]
fn short_path_kind_is_other() {
    assert_eq!(resource_kind("assets/boomber"), ResourceKind::Other);
    assert_eq!(resource_kind("assets/minecraft/lang/en_us.png"), ResourceKind::Other);
}

#[test]
fn kinds_follow_the_patterns() {
    assert_eq!(resource_kind("assets/minecraft/lang/en_us.json"), ResourceKind::Lang);
    assert_eq!(resource_kind("assets/minecraft/blockstates/stone.json"), ResourceKind::BlockState);
    assert_eq!(decide_kind(false, false, false, true), ResourceKind::BlockState);
    assert_eq!(decide_kind(false, false, false, false), ResourceKind::Other);
}

#[test]
fn renamed_model_takes_its_own_packs_references_along() {
    let a = project(vec![
        ("assets/modx/models/special.json", model(0, "block/from_a")),
        ("assets/modx/blockstates/own.json", blockstate(0, "modx:special")),
    ]);
    let b = project(vec![
        ("assets/modx/models/special.json", model(1, "block/from_b")),
        ("assets/modx/blockstates/thing.json", blockstate(1, "modx:special")),
    ]);
    let t = Workspace { projects: vec![a, b] }.resolve().unwrap();
    assert_eq!(t.entries.len(), 4);
    assert_eq!(parent(&entry(&t.entries, "assets/modx/models/special.json").asset), ns("block/from_a"));
    assert_eq!(parent(&entry(&t.entries, "assets/modx/models/pack_1/special.json").asset), ns("block/from_b"));
    assert_eq!(block_target(&entry(&t.entries, "assets/modx/blockstates/thing.json").asset), ns("modx:pack_1/special"));
    assert_eq!(block_target(&entry(&t.entries, "assets/modx/blockstates/own.json").asset), ns("modx:special"));
    assert_eq!(entry(&t.entries, "assets/modx/models/special.json").sources, vec![0]);
    assert_eq!(entry(&t.entries, "assets/modx/models/pack_1/special.json").sources, vec![1]);
    assert_eq!(entry(&t.entries, "assets/modx/models/pack_1/special.json").origin, "assets/modx/models/special.json");
}

#[test]
fn rename_reaches_references_of_a_merged_vanilla_model() {
    let a = project(vec![
        ("assets/modx/models/special.json", model(0, "block/a")),
        ("assets/minecraft/models/item/stick.json", model(0, "block/stick_a")),
    ]);
    let b = project(vec![
        ("assets/modx/models/special.json", model(1, "block/b")),
        ("assets/minecraft/models/item/stick.json", model(1, "modx:special")),
    ]);
    let t = Workspace { projects: vec![a, b] }.resolve().unwrap();
    assert_eq!(t.entries.len(), 3);
    assert_eq!(parent(&entry(&t.entries, "assets/minecraft/models/item/stick.json").asset), ns("modx:pack_1/special"));
}

#[test]
fn vanilla_models_fold_over_every_pack() {
    let p = |pid: usize, parent: &str| project(vec![("assets/minecraft/models/item/stick.json", model(pid, parent))]);
    let t = Workspace { projects: vec![p(0, "block/one"), p(1, "block/two"), p(2, "block/three")] }
        .resolve()
        .unwrap();
    assert_eq!(t.entries.len(), 1);
    assert_eq!(parent(&t.entries[0].asset), ns("block/three"));
    assert_eq!(t.entries[0].sources, vec![0, 1, 2]);
}

#[test]
fn other_files_are_replaced_by_the_last_pack() {
    let a = project(vec![("assets/minecraft/sounds.json", Asset::Other(Other::new(vec![1])))]);
    let b = project(vec![("assets/minecraft/sounds.json", Asset::Other(Other::new(vec![2])))]);
    let c = project(vec![("credits.txt", Asset::Other(Other::new(vec![3])))]);
    let t = Workspace { projects: vec![a, b, c] }.resolve().unwrap();
    assert_eq!(t.entries.len(), 2);
    assert_eq!(t.entries[0].path, "assets/minecraft/sounds.json");
    match &t.entries[0].asset {
        Asset::Other(o) => assert_eq!(o.data, vec![2]),
        _ => panic!("expected bytes"),
    }
    assert_eq!(t.entries[0].sources, vec![1]);
    assert_eq!(t.entries[1].sources, vec![2]);
    assert_eq!(t.entries[1].path, "credits.txt");
}

#[test]
fn language_files_merge_across_packs() {
    let a = project(vec![("assets/minecraft/lang/en_us.json", lang(&[("a", "1")]))]);
    let b = project(vec![("assets/minecraft/lang/en_us.json", lang(&[("a", "2"), ("b", "3")]))]);
    let t = Workspace { projects: vec![a, b] }.resolve().unwrap();
    assert_eq!(t.entries.len(), 1);
    assert_eq!(t.entries[0].warnings.len(), 1);
    match &t.entries[0].asset {
        Asset::Lang(l) => assert_eq!(l.data.len(), 2),
        _ => panic!("expected a language table"),
    }
}

#[test]
fn incompatible_file_aborts_the_whole_run() {
    let a = project(vec![
        ("assets/minecraft/lang/en_us.json", lang(&[("a", "1")])),
        ("assets/minecraft/models/item/stick.json", model(0, "block/a")),
    ]);
    let b = project(vec![
        ("assets/minecraft/lang/en_us.json", lang(&[("a", "2")])),
        ("assets/minecraft/models/item/stick.json", lang(&[])),
    ]);
    let err = Workspace { projects: vec![a, b] }.resolve().unwrap_err();
    assert_eq!(err.path, "assets/minecraft/models/item/stick.json");
    assert_eq!(err.error, Error::IncompatibleFile);
}

#[test]
fn renamed_path_taken_by_a_file_is_padded_clear() {
    let taken = "assets/modx/models/pack_1/special.json";
    let a = project(vec![
        ("assets/modx/models/special.json", model(0, "block/a")),
        (taken, model(0, "block/taken")),
    ]);
    let b = project(vec![
        ("assets/modx/models/special.json", model(1, "block/b")),
        ("assets/modx/blockstates/thing.json", blockstate(1, "modx:special")),
    ]);
    let t = Workspace { projects: vec![a, b] }.resolve().unwrap();
    let fresh = format!("assets/modx/models/pack_1{}/special.json", "_".repeat(taken.len()));
    assert_eq!(t.entries.len(), 4);
    assert_eq!(parent(&entry(&t.entries, taken).asset), ns("block/taken"));
    let moved = entry(&t.entries, &fresh);
    assert_eq!(parent(&moved.asset), ns("block/b"));
    assert_eq!(moved.origin, "assets/modx/models/special.json");
    assert_eq!(moved.sources, vec![1]);
    let target = block_target(&entry(&t.entries, "assets/modx/blockstates/thing.json").asset);
    assert_eq!(target.path, format!("pack_1{}/special", "_".repeat(taken.len())));
}

#[test]
fn check_wf_finds_repeated_paths() {
    let ok = Workspace { projects: vec![project(vec![("a.txt", Asset::Other(Other::new(vec![])))])] };
    assert!(ok.check_wf());
    let twice = Workspace {
        projects: vec![project(vec![
            ("a.txt", Asset::Other(Other::new(vec![]))),
            ("a.txt", Asset::Other(Other::new(vec![1]))),
        ])],
    };
    assert!(!twice.check_wf());
    let repeated_key = Workspace { projects: vec![project(vec![("l.json", lang(&[("k", "1"), ("k", "2")]))])] };
    assert!(!repeated_key.check_wf());
}

#[test]
fn empty_workspace_resolves_to_nothing() {
    let t = Workspace { projects: vec![] }.resolve().unwrap();
    assert!(t.entries.is_empty());
}
