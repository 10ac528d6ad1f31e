//! The versions of one path across packs, and their left-to-right merge.
use crate::asset::model::{lemma_sort_append, override_list, stable_sort, Model, Override};
use crate::asset::{compatible, merge_warnings, merged, same_kind, Asset, Warning, WarningView};
use crate::error::Error;
use vstd::prelude::*;

verus! {

/// Every later version can be merged into the first.
pub open spec fn all_compatible(s: Seq<Asset>) -> bool {
    forall|i: int| 1 <= i < s.len() ==> compatible(s[0], #[trigger] s[i])
}

/// `ms[i]` is what merging the first `i + 1` versions of `s` gives, and `cw[i]`
/// the warnings of those merges, in order.
pub open spec fn fold_trace(s: Seq<Asset>, ms: Seq<Asset>, cw: Seq<Seq<WarningView>>) -> bool {
    &&& s.len() > 0
    &&& ms.len() == s.len()
    &&& cw.len() == s.len()
    &&& ms[0] == s[0]
    &&& cw[0] == Seq::<WarningView>::empty()
    &&& forall|i: int|
        1 <= i < s.len() ==> merged(ms[i - 1], s[i], #[trigger] ms[i]) && cw[i] == cw[i - 1]
            + merge_warnings(ms[i - 1], s[i], ms[i])
}

/// `r` and the warnings `w` are what merging the versions of `s` one after
/// the other, from the first, gives.
pub open spec fn folds_to(s: Seq<Asset>, r: Asset, w: Seq<WarningView>) -> bool {
    exists|ms: Seq<Asset>, cw: Seq<Seq<WarningView>>|
        #[trigger] fold_trace(s, ms, cw) && r == ms.last() && w == cw.last()
}

/// Versions of one path, in the order in which their packs were found.
#[derive(Debug, Clone)]
pub struct Conflict {
    pub conflicts: Vec<Asset>,
}

proof fn lemma_merged_kind(a: Asset, b: Asset, r: Asset)
    requires
        merged(a, b, r),
    ensures
        same_kind(r, b),
        r is BlockState == b is BlockState,
{
}

impl Conflict {
    pub fn new(conflicts: Vec<Asset>) -> (r: Conflict)
        ensures
            r.conflicts@ == conflicts@,
    {
        Conflict { conflicts }
    }

    pub fn with_resource(asset: Asset) -> (r: Conflict)
        ensures
            r.conflicts@ == seq![asset],
    {
        let mut v = Vec::new();
        v.push(asset);
        Conflict { conflicts: v }
    }

    pub fn add(&mut self, asset: Asset)
        ensures
            final(self).conflicts@ == old(self).conflicts@.push(asset),
    {
        self.conflicts.push(asset);
    }

    /// Merges the versions from the first to the last, each into what the
    /// earlier ones gave; stops at the first pair that cannot be merged, and
    /// fails on an empty conflict.
    pub fn solve(self) -> (r: Result<(Asset, Vec<Warning>), Error>)
        requires
            forall|i: int| 0 <= i < self.conflicts@.len() ==> (#[trigger] self.conflicts@[i]).wf(),
        ensures
            match r {
                Ok(mw) => self.conflicts@.len() > 0 && all_compatible(self.conflicts@) && mw.0.wf() && folds_to(
                    self.conflicts@,
                    mw.0,
                    mw.1@.map_values(|w: Warning| w@),
                ),
                Err(e) => if self.conflicts@.len() == 0 {
                    e == Error::EmptyConflict
                } else {
                    !all_compatible(self.conflicts@) && e == Error::IncompatibleFile
                },
            },
    {
        if self.conflicts.len() == 0 {
            return Err(Error::EmptyConflict);
        }
        let ghost s = self.conflicts@;
        let total = self.conflicts.len();
        let mut rest = self.conflicts;
        let mut acc = rest.remove(0);
        let mut warnings: Vec<Warning> = Vec::new();
        let mut n: usize = 1;
        let ghost mut ms: Seq<Asset> = seq![acc];
        let ghost mut cw: Seq<Seq<WarningView>> = seq![Seq::<WarningView>::empty()];
        assert(warnings@.map_values(|w: Warning| w@) =~= Seq::<WarningView>::empty());
        assert(fold_trace(s.take(1), ms, cw));
        while rest.len() > 0
            invariant
                1 <= n <= s.len(),
                total == s.len(),
                s == self.conflicts@,
                rest@ == s.skip(n as int),
                forall|i: int| 0 <= i < s.len() ==> (#[trigger] s[i]).wf(),
                forall|i: int| 1 <= i < n ==> compatible(s[0], #[trigger] s[i]),
                acc.wf(),
                same_kind(acc, s[0]),
                acc is BlockState == s[0] is BlockState,
                fold_trace(s.take(n as int), ms, cw),
                acc == ms.last(),
                warnings@.map_values(|w: Warning| w@) == cw.last(),
            decreases rest@.len(),
        {
            let next = rest.remove(0);
            assert(next == s[n as int]);
            let ghost prev = acc;
            match acc.merge(next) {
                Ok((m, w)) => {
                    let mut w = w;
                    let ghost wv = w@;
                    let ghost w1 = warnings@.map_values(|w: Warning| w@);
                    acc = m;
                    warnings.append(&mut w);
                    proof {
                        let t = s.take(n + 1);
                        assert(warnings@.map_values(|w: Warning| w@) =~= w1 + wv.map_values(
                            |w: Warning| w@,
                        ));
                        lemma_merged_kind(prev, next, acc);
                        let ms0 = ms;
                        let cw0 = cw;
                        ms = ms.push(acc);
                        cw = cw.push(warnings@.map_values(|w: Warning| w@));
                        assert forall|i: int| 1 <= i < t.len() implies merged(
                            ms[i - 1],
                            t[i],
                            #[trigger] ms[i],
                        ) && cw[i] == cw[i - 1] + merge_warnings(ms[i - 1], t[i], ms[i]) by {
                            if i < n {
                                assert(ms[i] == ms0[i] && ms[i - 1] == ms0[i - 1]);
                                assert(s.take(n as int)[i] == t[i]);
                            }
                        }
                        assert(fold_trace(t, ms, cw));
                    }
                },
                Err(e) => {
                    proof {
                        assert(!compatible(s[0], s[n as int]));
                    }
                    return Err(e);
                },
            }
            n = n + 1;
        }
        assert(s.take(n as int) =~= s);
        assert(fold_trace(s, ms, cw));
        Ok((acc, warnings))
    }
}

/// The overrides of a version, if it is a model.
pub open spec fn overrides_of(a: Asset) -> Seq<Override> {
    match a {
        Asset::Model(m) => override_list(m.overrides),
        _ => seq![],
    }
}

/// The overrides of all versions, in order.
pub open spec fn all_overrides(s: Seq<Asset>) -> Seq<Override>
    decreases s.len(),
{
    if s.len() == 0 {
        seq![]
    } else {
        all_overrides(s.drop_last()) + overrides_of(s.last())
    }
}

/// `a` has every field of `b` but its overrides.
pub open spec fn same_fields(a: Model, b: Model) -> bool {
    &&& a.pid == b.pid
    &&& a.parent == b.parent
    &&& a.ambientocclusion == b.ambientocclusion
    &&& a.display == b.display
    &&& a.textures == b.textures
    &&& a.elements == b.elements
    &&& a.gui_light == b.gui_light
}

proof fn lemma_all_overrides_one(s: Seq<Asset>)
    requires
        s.len() > 0,
    ensures
        all_overrides(s.take(1)) == overrides_of(s[0]),
{
    assert(s.take(1).drop_last() =~= Seq::<Asset>::empty());
    assert(all_overrides(s.take(1).drop_last()) =~= Seq::<Override>::empty());
    assert(s.take(1).last() == s[0]);
    assert(all_overrides(s.take(1)) =~= overrides_of(s[0]));
}

proof fn lemma_trace_models(s: Seq<Asset>, ms: Seq<Asset>, cw: Seq<Seq<WarningView>>, i: int)
    requires
        fold_trace(s, ms, cw),
        forall|k: int| 0 <= k < s.len() ==> (#[trigger] s[k]) is Model,
        0 <= i < s.len(),
    ensures
        ms[i] is Model,
        same_fields(ms[i]->Model_0, s[i]->Model_0),
        i == 0 ==> overrides_of(ms[i]) == overrides_of(s[0]),
        i >= 1 ==> overrides_of(ms[i]) == stable_sort(all_overrides(s.take(i + 1))),
    decreases i,
{
    if i > 0 {
        lemma_trace_models(s, ms, cw, i - 1);
        assert(merged(ms[i - 1], s[i], ms[i]));
        assert(s.take(i + 1).drop_last() =~= s.take(i));
        assert(s.take(i + 1).last() == s[i]);
        if i == 1 {
            lemma_all_overrides_one(s);
        } else {
            lemma_sort_append(all_overrides(s.take(i)), overrides_of(s[i]));
        }
    }
}

/// Merging the versions of a model one after the other, from the first
/// found, gives every field of the last version, and as overrides the stable
/// sort of all versions' overrides in the order found: the result depends on
/// the order.
pub proof fn law_models_fold(s: Seq<Asset>, r: Asset, w: Seq<WarningView>)
    requires
        folds_to(s, r, w),
        forall|k: int| 0 <= k < s.len() ==> (#[trigger] s[k]) is Model,
    ensures
        s.len() == 1 ==> r == s[0],
        r is Model,
        same_fields(r->Model_0, s.last()->Model_0),
        s.len() >= 2 ==> overrides_of(r) == stable_sort(all_overrides(s)),
{
    let (ms, cw) = choose|ms: Seq<Asset>, cw: Seq<Seq<WarningView>>|
        #[trigger] fold_trace(s, ms, cw) && r == ms.last() && w == cw.last();
    lemma_trace_models(s, ms, cw, s.len() - 1);
    assert(s.take(s.len() as int) =~= s);
}

} // verus!
