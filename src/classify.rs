//! Which kind of file a pack-relative path holds, and how a collision at that
//! path is resolved. Both are read off the path alone, by glob patterns.
use vstd::prelude::*;

verus! {

/// Whether the glob `pattern` matches the path `path`.
pub uninterp spec fn glob_matches(pattern: Seq<char>, path: Seq<char>) -> bool;

/// Relies on `glob::Pattern::new` and `glob::Pattern::matches`: whether a path
/// matches a glob pattern, with the default match options. The answer depends
/// on the two texts alone; a pattern that does not compile matches nothing.
#[verifier::external_body]
fn glob_match(pattern: &str, path: &str) -> (r: bool)
    ensures
        r == glob_matches(pattern@, path@),
{
    match glob::Pattern::new(pattern) {
        Ok(p) => p.matches(path),
        Err(_) => false,
    }
}

pub open spec fn vanilla_pattern() -> Seq<char> {
    "**/assets/minecraft/**"@
}

pub open spec fn model_pattern() -> Seq<char> {
    "**/assets/*/models/**/*.json"@
}

pub open spec fn lang_pattern() -> Seq<char> {
    "**/assets/*/lang/**/*.json"@
}

pub open spec fn texture_pattern() -> Seq<char> {
    "**/assets/*/textures/**/*.png"@
}

pub open spec fn pack_meta_pattern() -> Seq<char> {
    "**/pack.mcmeta"@
}

pub open spec fn blockstate_pattern() -> Seq<char> {
    "**/assets/*/blockstates/**/*.json"@
}

/// The path lies in the `minecraft` namespace.
pub fn minecraft_folder(path: &str) -> (r: bool)
    ensures
        r == glob_matches(vanilla_pattern(), path@),
{
    glob_match("**/assets/minecraft/**", path)
}

/// The path is a model file.
pub fn models_folder(path: &str) -> (r: bool)
    ensures
        r == glob_matches(model_pattern(), path@),
{
    glob_match("**/assets/*/models/**/*.json", path)
}

/// The path is a language file.
pub fn lang_folder(path: &str) -> (r: bool)
    ensures
        r == glob_matches(lang_pattern(), path@),
{
    glob_match("**/assets/*/lang/**/*.json", path)
}

/// The path is a texture.
pub fn texture_folder(path: &str) -> (r: bool)
    ensures
        r == glob_matches(texture_pattern(), path@),
{
    glob_match("**/assets/*/textures/**/*.png", path)
}

/// The path is a pack's metadata file.
pub fn pack_meta(path: &str) -> (r: bool)
    ensures
        r == glob_matches(pack_meta_pattern(), path@),
{
    glob_match("**/pack.mcmeta", path)
}

/// The path is a block-state file.
pub fn blockstate_folder(path: &str) -> (r: bool)
    ensures
        r == glob_matches(blockstate_pattern(), path@),
{
    glob_match("**/assets/*/blockstates/**/*.json", path)
}

/// How the versions of one path that several packs hold are combined.
#[derive(Debug, Clone, Copy, PartialEq, Eq, Structural)]
pub enum Strategy {
    /// The versions are merged by their kind's merge.
    Merge,
    /// Each later version moves to a path of its own.
    Rename,
    /// The last version wins.
    Replace,
}

/// The kind of file that a path holds.
#[derive(Debug, Clone, Copy, PartialEq, Eq, Structural)]
pub enum ResourceKind {
    Model,
    Texture,
    Lang,
    BlockState,
    Other,
}

/// The strategy for a path, from what its patterns say of it.
pub open spec fn strategy_rule(
    vanilla: bool,
    model: bool,
    lang: bool,
    texture: bool,
    pack_meta: bool,
) -> Strategy {
    if vanilla && model {
        Strategy::Merge
    } else if !vanilla && (model || texture) {
        Strategy::Rename
    } else if lang || pack_meta {
        Strategy::Merge
    } else {
        Strategy::Replace
    }
}

pub open spec fn path_strategy(p: Seq<char>) -> Strategy {
    strategy_rule(
        glob_matches(vanilla_pattern(), p),
        glob_matches(model_pattern(), p),
        glob_matches(lang_pattern(), p),
        glob_matches(texture_pattern(), p),
        glob_matches(pack_meta_pattern(), p),
    )
}

/// The kind of a path, from what its patterns say of it; the first that
/// matches of model, language, texture and block state decides.
pub open spec fn kind_rule(model: bool, lang: bool, texture: bool, blockstate: bool) -> ResourceKind {
    if model {
        ResourceKind::Model
    } else if lang {
        ResourceKind::Lang
    } else if texture {
        ResourceKind::Texture
    } else if blockstate {
        ResourceKind::BlockState
    } else {
        ResourceKind::Other
    }
}

pub open spec fn path_kind(p: Seq<char>) -> ResourceKind {
    kind_rule(
        glob_matches(model_pattern(), p),
        glob_matches(lang_pattern(), p),
        glob_matches(texture_pattern(), p),
        glob_matches(blockstate_pattern(), p),
    )
}

/// Vanilla models merge; models and textures of other namespaces are renamed;
/// language files and pack metadata merge; anything else is replaced.
pub fn decide_strategy(vanilla: bool, model: bool, lang: bool, texture: bool, pack_meta: bool) -> (r:
    Strategy)
    ensures
        r == strategy_rule(vanilla, model, lang, texture, pack_meta),
{
    if vanilla && model {
        Strategy::Merge
    } else if !vanilla && (model || texture) {
        Strategy::Rename
    } else if lang || pack_meta {
        Strategy::Merge
    } else {
        Strategy::Replace
    }
}

/// The strategy for a path that several packs hold.
pub fn strategy(path: &str) -> (r: Strategy)
    ensures
        r == path_strategy(path@),
{
    let vanilla = minecraft_folder(path);
    let model = models_folder(path);
    let lang = lang_folder(path);
    let texture = texture_folder(path);
    let meta = pack_meta(path);
    decide_strategy(vanilla, model, lang, texture, meta)
}

pub fn decide_kind(model: bool, lang: bool, texture: bool, blockstate: bool) -> (r: ResourceKind)
    ensures
        r == kind_rule(model, lang, texture, blockstate),
{
    if model {
        ResourceKind::Model
    } else if lang {
        ResourceKind::Lang
    } else if texture {
        ResourceKind::Texture
    } else if blockstate {
        ResourceKind::BlockState
    } else {
        ResourceKind::Other
    }
}

/// The kind of file a path holds.
pub fn resource_kind(path: &str) -> (r: ResourceKind)
    ensures
        r == path_kind(path@),
{
    let model = models_folder(path);
    let lang = lang_folder(path);
    let texture = texture_folder(path);
    let blockstate = blockstate_folder(path);
    decide_kind(model, lang, texture, blockstate)
}

} // verus!
