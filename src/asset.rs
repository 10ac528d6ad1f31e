//! The kinds of file in a pack and what each kind does on a collision.
pub mod blockstate;
pub mod lang;
pub mod model;
pub mod other;
pub mod texture;

use crate::error::Error;
use crate::index::{retarget, Index, Reference};
use crate::namespace::path_reads_as;
use blockstate::{blockstate_refs, BlockState};
use lang::{key_conflicts, KeyConflict, Lang};
use model::{model_refs, override_list, predicate_clashes, stable_sort, Model, PredicateConflict};
use other::Other;
use texture::Texture;
use vstd::prelude::*;

verus! {

/// One file of a pack, parsed according to its kind.
#[derive(Debug, Clone)]
pub enum Asset {
    Lang(Lang),
    Texture(Texture),
    Model(Model),
    Other(Other),
    BlockState(BlockState),
}

/// Something a merge noticed that is worth a warning but not an error.
#[derive(Debug, Clone)]
pub enum Warning {
    Key(KeyConflict),
    Predicate(PredicateConflict),
}

/// What a warning says, as plain values.
pub enum WarningView {
    Key(Seq<char>, Seq<char>, Seq<char>),
    Predicate(u64, (Seq<char>, Seq<char>), (Seq<char>, Seq<char>)),
}

impl View for Warning {
    type V = WarningView;

    open spec fn view(&self) -> WarningView {
        match self {
            Warning::Key(c) => WarningView::Key(c.key@, c.from@, c.to@),
            Warning::Predicate(c) => WarningView::Predicate(
                c.custom_model_data,
                c.first@,
                c.second@,
            ),
        }
    }
}

pub open spec fn key_view(c: KeyConflict) -> WarningView {
    WarningView::Key(c.key@, c.from@, c.to@)
}

pub open spec fn predicate_view(c: PredicateConflict) -> WarningView {
    WarningView::Predicate(c.custom_model_data, c.first@, c.second@)
}

pub open spec fn asset_refs(a: Asset) -> Seq<Reference> {
    match a {
        Asset::Model(m) => model_refs(m),
        Asset::BlockState(b) => blockstate_refs(b),
        _ => seq![],
    }
}

/// `a` is `b` but for the identifiers its references name.
pub open spec fn same_shape(a: Asset, b: Asset) -> bool {
    match (a, b) {
        (Asset::Lang(x), Asset::Lang(y)) => x == y,
        (Asset::Texture(x), Asset::Texture(y)) => x == y,
        (Asset::Other(x), Asset::Other(y)) => x == y,
        (Asset::Model(x), Asset::Model(y)) => model::same_but_references(x, y),
        (Asset::BlockState(x), Asset::BlockState(y)) => blockstate::same_but_references(x, y),
        _ => false,
    }
}

pub open spec fn same_kind(a: Asset, b: Asset) -> bool {
    match (a, b) {
        (Asset::Lang(_), Asset::Lang(_)) => true,
        (Asset::Texture(_), Asset::Texture(_)) => true,
        (Asset::Other(_), Asset::Other(_)) => true,
        (Asset::Model(_), Asset::Model(_)) => true,
        (Asset::BlockState(_), Asset::BlockState(_)) => true,
        _ => false,
    }
}

/// Two versions of a file can be merged: same kind, and a kind with a merge.
pub open spec fn compatible(a: Asset, b: Asset) -> bool {
    same_kind(a, b) && !(a is BlockState)
}

/// `r` is what merging `a` with the later version `b` gives.
pub open spec fn merged(a: Asset, b: Asset, r: Asset) -> bool {
    match (a, b, r) {
        (Asset::Lang(x), Asset::Lang(y), Asset::Lang(z)) => z.wf() && z.path@ == x.path@
            && z.table() == x.table().union_prefer_right(y.table()),
        (Asset::Model(x), Asset::Model(y), Asset::Model(z)) => {
            &&& z.pid == y.pid
            &&& z.parent == y.parent
            &&& z.ambientocclusion == y.ambientocclusion
            &&& z.display == y.display
            &&& z.textures == y.textures
            &&& z.elements == y.elements
            &&& z.gui_light == y.gui_light
            &&& (z.overrides is None <==> (x.overrides is None && y.overrides is None))
            &&& override_list(z.overrides) == stable_sort(
                override_list(x.overrides) + override_list(y.overrides),
            )
        },
        (Asset::Texture(_), Asset::Texture(y), Asset::Texture(z)) => z == y,
        (Asset::Other(_), Asset::Other(y), Asset::Other(z)) => z == y,
        _ => false,
    }
}

/// The warnings of merging `a` with `b` into `r`.
pub open spec fn merge_warnings(a: Asset, b: Asset, r: Asset) -> Seq<WarningView> {
    match (a, b, r) {
        (Asset::Lang(x), Asset::Lang(y), _) => key_conflicts(x.table(), y.data@).map_values(
            |c: (Seq<char>, Seq<char>, Seq<char>)| WarningView::Key(c.0, c.1, c.2),
        ),
        (Asset::Model(_), Asset::Model(_), Asset::Model(z)) => predicate_clashes(
            override_list(z.overrides),
        ).map_values(
            |c: (u64, (Seq<char>, Seq<char>), (Seq<char>, Seq<char>))|
                WarningView::Predicate(c.0, c.1, c.2),
        ),
        _ => seq![],
    }
}

/// A reference after the file at `ren.0` moved to the path `ren.1`; nothing
/// moves where either path names no identifier.
pub open spec fn apply_rename(x: Reference, ren: (Seq<char>, Seq<char>)) -> Reference {
    match (path_reads_as(ren.0), path_reads_as(ren.1)) {
        (Ok(fv), Ok(t)) => retarget(x, ren.0, fv, t),
        _ => x,
    }
}

/// A reference after each of the moves in `ren`, in order.
pub open spec fn rename_all(x: Reference, ren: Seq<(Seq<char>, Seq<char>)>) -> Reference
    decreases ren.len(),
{
    if ren.len() == 0 {
        x
    } else {
        apply_rename(rename_all(x, ren.drop_last()), ren.last())
    }
}

/// `r` is `a` with its references moved along with the files of `ren`.
pub open spec fn is_rewrite(r: Asset, a: Asset, ren: Seq<(Seq<char>, Seq<char>)>) -> bool {
    same_shape(r, a) && asset_refs(r) == asset_refs(a).map_values(|x: Reference| rename_all(x, ren))
}

pub open spec fn moves_view(v: Seq<(String, String)>) -> Seq<(Seq<char>, Seq<char>)> {
    v.map_values(|e: (String, String)| (e.0@, e.1@))
}

fn key_warnings(v: Vec<KeyConflict>) -> (r: Vec<Warning>)
    ensures
        r@.len() == v@.len(),
        forall|i: int| 0 <= i < v@.len() ==> (#[trigger] r@[i])@ == key_view(v@[i]),
{
    let ghost orig = v@;
    let mut rest = v;
    let mut out: Vec<Warning> = Vec::new();
    while rest.len() > 0
        invariant
            out@.len() <= orig.len(),
            rest@ == orig.skip(out@.len() as int),
            forall|i: int| 0 <= i < out@.len() ==> (#[trigger] out@[i])@ == key_view(orig[i]),
        decreases rest@.len(),
    {
        let c = rest.remove(0);
        out.push(Warning::Key(c));
        assert(rest@ =~= orig.skip(out@.len() as int));
    }
    out
}

fn predicate_warnings(v: Vec<PredicateConflict>) -> (r: Vec<Warning>)
    ensures
        r@.len() == v@.len(),
        forall|i: int| 0 <= i < v@.len() ==> (#[trigger] r@[i])@ == predicate_view(v@[i]),
{
    let ghost orig = v@;
    let mut rest = v;
    let mut out: Vec<Warning> = Vec::new();
    while rest.len() > 0
        invariant
            out@.len() <= orig.len(),
            rest@ == orig.skip(out@.len() as int),
            forall|i: int| 0 <= i < out@.len() ==> (#[trigger] out@[i])@ == predicate_view(orig[i]),
        decreases rest@.len(),
    {
        let c = rest.remove(0);
        out.push(Warning::Predicate(c));
        assert(rest@ =~= orig.skip(out@.len() as int));
    }
    out
}

proof fn lemma_same_shape_trans(a: Asset, b: Asset, c: Asset)
    requires
        same_shape(a, b),
        same_shape(b, c),
    ensures
        same_shape(a, c),
{
}

impl Asset {
    pub open spec fn wf(&self) -> bool {
        match self {
            Asset::Lang(l) => l.wf(),
            Asset::Model(m) => m.wf(),
            Asset::BlockState(b) => b.wf(),
            _ => true,
        }
    }

    /// Whether this file is well formed.
    pub fn check_wf(&self) -> (r: bool)
        ensures
            r == self.wf(),
    {
        match self {
            Asset::Lang(l) => crate::workspace::keys_distinct(&l.data),
            Asset::Model(m) => match &m.textures {
                Some(t) => crate::workspace::keys_distinct(t),
                None => true,
            },
            Asset::BlockState(b) => match &b.data {
                blockstate::BlockStateFormat::Variants(v) => crate::workspace::keys_distinct(v),
                blockstate::BlockStateFormat::Multipart(_) => true,
            },
            _ => true,
        }
    }

    /// The slots this file refers to, under its own project.
    pub fn relation(&self) -> (r: Vec<Index>)
        ensures
            match self {
                Asset::Model(m) => r@.map_values(|i: Index| i@) == asset_refs(*self).map_values(
                    |x: Reference| crate::index::ref_slot(m.pid as nat, x),
                ),
                Asset::BlockState(b) => r@.map_values(|i: Index| i@) == asset_refs(
                    *self,
                ).map_values(|x: Reference| crate::index::ref_slot(b.pid as nat, x)),
                _ => r@.len() == 0,
            },
    {
        match self {
            Asset::Model(m) => m.relation(),
            Asset::BlockState(b) => b.relation(),
            _ => Vec::new(),
        }
    }

    /// Points every reference at the slot `from` to the identifier that `to`'s
    /// path names; if that path names none, nothing changes.
    pub fn modify_relation(self, from: &Index, to: &Index) -> (r: Asset)
        ensures
            match (path_reads_as(from.path@), path_reads_as(to.path@)) {
                (Ok(fv), Ok(t)) => same_shape(r, self) && asset_refs(r) == asset_refs(self).map_values(
                    |x: Reference| retarget(x, from.path@, fv, t),
                ),
                _ => r == self,
            },
            r.wf() == self.wf(),
    {
        match self {
            Asset::Model(m) => Asset::Model(m.modify_relation(from, to)),
            Asset::BlockState(b) => Asset::BlockState(b.modify_relation(from, to)),
            _ => {
                assert(asset_refs(self) =~= asset_refs(self).map_values(
                    |x: Reference| retarget(
                        x,
                        from.path@,
                        path_reads_as(from.path@)->Ok_0,
                        path_reads_as(to.path@)->Ok_0,
                    ),
                ));
                self
            },
        }
    }

    /// Moves the references of this file of project `pid` along with the files
    /// `moves` lists, each a path and the path it moved to.
    pub fn rename_references(self, moves: &Vec<(String, String)>, pid: usize) -> (r: Asset)
        ensures
            is_rewrite(r, self, moves_view(moves@)),
            r.wf() == self.wf(),
    {
        let ghost orig = self;
        let ghost ren = moves_view(moves@);
        let mut cur = self;
        let mut k: usize = 0;
        assert(asset_refs(orig) =~= asset_refs(orig).map_values(
            |x: Reference| rename_all(x, ren.take(0)),
        ));
        while k < moves.len()
            invariant
                k <= moves@.len(),
                ren == moves_view(moves@),
                same_shape(cur, orig),
                cur.wf() == orig.wf(),
                asset_refs(cur) == asset_refs(orig).map_values(
                    |x: Reference| rename_all(x, ren.take(k as int)),
                ),
            decreases moves@.len() - k,
        {
            let from = Index { pid, path: moves[k].0.clone() };
            let to = Index { pid, path: moves[k].1.clone() };
            let ghost before = cur;
            cur = cur.modify_relation(&from, &to);
            proof {
                assert(ren.take(k + 1).drop_last() =~= ren.take(k as int));
                assert(ren.take(k + 1).last() == ren[k as int]);
                assert(ren[k as int] == (from.path@, to.path@));
                match (path_reads_as(from.path@), path_reads_as(to.path@)) {
                    (Ok(_), Ok(_)) => {
                        lemma_same_shape_trans(cur, before, orig);
                    },
                    _ => {},
                }
                assert(asset_refs(cur) =~= asset_refs(orig).map_values(
                    |x: Reference| rename_all(x, ren.take(k + 1)),
                ));
            }
            k = k + 1;
        }
        assert(ren.take(k as int) =~= ren);
        cur
    }

    /// Combines this file with `other`, a later version at the same path.
    pub fn merge(self, other: Asset) -> (r: Result<(Asset, Vec<Warning>), Error>)
        requires
            self.wf(),
            other.wf(),
        ensures
            match r {
                Ok(mw) => compatible(self, other) && merged(self, other, mw.0) && mw.0.wf()
                    && mw.1@.map_values(|w: Warning| w@) == merge_warnings(self, other, mw.0),
                Err(e) => !compatible(self, other) && e == Error::IncompatibleFile,
            },
    {
        let ghost a0 = self;
        let ghost b0 = other;
        match (self, other) {
            (Asset::Lang(a), Asset::Lang(b)) => {
                let (m, conflicts) = a.merge(b);
                let w = key_warnings(conflicts);
                proof {
                    let k = key_conflicts(a.table(), b.data@);
                    assert forall|i: int| 0 <= i < k.len() implies #[trigger] k[i] == conflicts@[i]@ by {
                        assert(conflicts@.map_values(|c: KeyConflict| c@)[i] == conflicts@[i]@);
                    }
                    assert(w@.map_values(|w: Warning| w@) =~= merge_warnings(a0, b0, Asset::Lang(m)));
                }
                Ok((Asset::Lang(m), w))
            },
            (Asset::Model(a), Asset::Model(b)) => {
                let (m, clashes) = a.merge(b);
                let w = predicate_warnings(clashes);
                proof {
                    let k = predicate_clashes(override_list(m.overrides));
                    assert forall|i: int| 0 <= i < k.len() implies #[trigger] k[i] == clashes@[i]@ by {
                        assert(clashes@.map_values(|c: PredicateConflict| c@)[i] == clashes@[i]@);
                    }
                    assert(w@.map_values(|w: Warning| w@) =~= merge_warnings(a0, b0, Asset::Model(m)));
                }
                Ok((Asset::Model(m), w))
            },
            (Asset::Texture(_), Asset::Texture(b)) => Ok((Asset::Texture(b), Vec::new())),
            (Asset::Other(_), Asset::Other(b)) => Ok((Asset::Other(b), Vec::new())),
            _ => Err(Error::IncompatibleFile),
        }
    }
}

} // verus!
