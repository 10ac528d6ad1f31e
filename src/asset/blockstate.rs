//! Block-state definitions: which model a block uses in each of its states.
use crate::index::{from_index, into_index, ref_slot, retarget, retarget_ns, Index, Reference};
use crate::namespace::{path_reads_as, Kind, Namespace};
use vstd::prelude::*;

verus! {

/// One model choice of a state, with its rotation and weight as the file gives them.
#[derive(Debug, Clone)]
pub struct BlockModel {
    pub model: Namespace,
    pub x: Option<i32>,
    pub y: Option<i32>,
    pub uvlock: Option<bool>,
    /// The weight as the file writes the number.
    pub weight: Option<String>,
}

/// One model, or several to pick from at random.
#[derive(Debug, Clone)]
pub enum ModelChoice {
    Single(BlockModel),
    Multiple(Vec<BlockModel>),
}

/// A part of a multipart definition: `apply` is used where `when` holds.
#[derive(Debug, Clone)]
pub struct Multipart {
    /// The condition as the JSON text it was read from.
    pub when: Option<String>,
    pub apply: ModelChoice,
}

/// The two shapes of a block-state file.
#[derive(Debug, Clone)]
pub enum BlockStateFormat {
    Variants(Vec<(String, ModelChoice)>),
    Multipart(Vec<Multipart>),
}

#[derive(Debug, Clone)]
pub struct BlockState {
    pub pid: usize,
    pub data: BlockStateFormat,
}

pub open spec fn choice_refs(c: ModelChoice) -> Seq<Reference> {
    match c {
        ModelChoice::Single(m) => seq![(Kind::Model, m.model@)],
        ModelChoice::Multiple(v) => v@.map_values(|m: BlockModel| (Kind::Model, m.model@)),
    }
}

/// The references of a list of choices, in order.
pub open spec fn choices_refs(s: Seq<ModelChoice>) -> Seq<Reference>
    decreases s.len(),
{
    if s.len() == 0 {
        seq![]
    } else {
        choices_refs(s.drop_last()) + choice_refs(s.last())
    }
}

pub open spec fn format_choices(f: BlockStateFormat) -> Seq<ModelChoice> {
    match f {
        BlockStateFormat::Variants(v) => v@.map_values(|e: (String, ModelChoice)| e.1),
        BlockStateFormat::Multipart(v) => v@.map_values(|c: Multipart| c.apply),
    }
}

/// Every model reference of either shape.
pub open spec fn blockstate_refs(b: BlockState) -> Seq<Reference> {
    choices_refs(format_choices(b.data))
}

pub open spec fn same_block_model(a: BlockModel, b: BlockModel) -> bool {
    a.x == b.x && a.y == b.y && a.uvlock == b.uvlock && a.weight == b.weight
}

pub open spec fn same_choice_shape(a: ModelChoice, b: ModelChoice) -> bool {
    match (a, b) {
        (ModelChoice::Single(x), ModelChoice::Single(y)) => same_block_model(x, y),
        (ModelChoice::Multiple(u), ModelChoice::Multiple(v)) => u@.len() == v@.len() && forall|i: int|
            0 <= i < u@.len() ==> same_block_model(#[trigger] u@[i], v@[i]),
        _ => false,
    }
}

/// `a` has the layout of `b`, but for the identifiers its references name.
pub open spec fn same_but_references(a: BlockState, b: BlockState) -> bool {
    &&& a.pid == b.pid
    &&& match (a.data, b.data) {
        (BlockStateFormat::Variants(u), BlockStateFormat::Variants(v)) => u@.len() == v@.len()
            && forall|i: int|
            0 <= i < u@.len() ==> (#[trigger] u@[i]).0@ == v@[i].0@ && same_choice_shape(
                u@[i].1,
                v@[i].1,
            ),
        (BlockStateFormat::Multipart(u), BlockStateFormat::Multipart(v)) => u@.len() == v@.len()
            && forall|i: int|
            0 <= i < u@.len() ==> (#[trigger] u@[i]).when == v@[i].when && same_choice_shape(
                u@[i].apply,
                v@[i].apply,
            ),
        _ => false,
    }
}

proof fn lemma_map_concat<A, B>(a: Seq<A>, b: Seq<A>, f: spec_fn(A) -> B)
    ensures
        (a + b).map_values(f) == a.map_values(f) + b.map_values(f),
{
    assert((a + b).map_values(f) =~= a.map_values(f) + b.map_values(f));
}

proof fn lemma_choices_push(s: Seq<ModelChoice>, c: ModelChoice)
    ensures
        choices_refs(s.push(c)) == choices_refs(s) + choice_refs(c),
{
    assert(s.push(c).drop_last() =~= s);
}

fn push_choice_slots(c: &ModelChoice, pid: usize, out: &mut Vec<Index>)
    ensures
        final(out)@.map_values(|i: Index| i@) == old(out)@.map_values(|i: Index| i@) + choice_refs(
            *c,
        ).map_values(|x: Reference| ref_slot(pid as nat, x)),
{
    let ghost start = old(out)@.map_values(|i: Index| i@);
    match c {
        ModelChoice::Single(m) => {
            out.push(into_index(Kind::Model, &m.model, pid));
            assert(out@.map_values(|i: Index| i@) =~= start + choice_refs(*c).map_values(
                |x: Reference| ref_slot(pid as nat, x),
            ));
        },
        ModelChoice::Multiple(v) => {
            let ghost want = choice_refs(*c).map_values(|x: Reference| ref_slot(pid as nat, x));
            let mut i: usize = 0;
            assert(out@.map_values(|i: Index| i@) =~= start + want.take(0));
            while i < v.len()
                invariant
                    i <= v@.len(),
                    want.len() == v@.len(),
                    forall|k: int| 0 <= k < v@.len() ==> want[k] == ref_slot(
                        pid as nat,
                        (Kind::Model, (#[trigger] v@[k]).model@),
                    ),
                    out@.map_values(|i: Index| i@) == start + want.take(i as int),
                decreases v@.len() - i,
            {
                let ghost prev = out@;
                let idx = into_index(Kind::Model, &v[i].model, pid);
                assert(idx@ == want[i as int]);
                out.push(idx);
                assert(out@ =~= prev.push(idx));
                assert(prev.push(idx).map_values(|i: Index| i@) =~= prev.map_values(|i: Index| i@).push(idx@));
                assert(want.take(i + 1) =~= want.take(i as int).push(want[i as int]));
                assert(out@.map_values(|i: Index| i@) =~= start + want.take(i + 1));
                i = i + 1;
            }
            assert(want.take(i as int) =~= want);
        },
    }
}

fn retarget_block_models(v: Vec<BlockModel>, from: &Index, f: &Namespace, to: &Namespace) -> (r: Vec<BlockModel>)
    ensures
        r@.len() == v@.len(),
        forall|i: int| 0 <= i < v@.len() ==> same_block_model(#[trigger] r@[i], v@[i]),
        r@.map_values(|m: BlockModel| (Kind::Model, m.model@)) == v@.map_values(
            |m: BlockModel| (Kind::Model, m.model@),
        ).map_values(|x: Reference| retarget(x, from.path@, f@, to@)),
{
    let ghost orig = v@;
    let mut rest = v;
    let mut out: Vec<BlockModel> = Vec::new();
    while rest.len() > 0
        invariant
            out@.len() <= orig.len(),
            rest@ == orig.skip(out@.len() as int),
            forall|i: int| 0 <= i < out@.len() ==> same_block_model(#[trigger] out@[i], orig[i]) && (
            Kind::Model, out@[i].model@) == retarget((Kind::Model, orig[i].model@), from.path@, f@, to@),
        decreases rest@.len(),
    {
        let BlockModel { model, x, y, uvlock, weight } = rest.remove(0);
        let model = retarget_ns(model, Kind::Model, from, f, to);
        out.push(BlockModel { model, x, y, uvlock, weight });
        assert(rest@ =~= orig.skip(out@.len() as int));
    }
    assert(out@.map_values(|m: BlockModel| (Kind::Model, m.model@)) =~= orig.map_values(
        |m: BlockModel| (Kind::Model, m.model@),
    ).map_values(|x: Reference| retarget(x, from.path@, f@, to@)));
    out
}

fn retarget_choice(c: ModelChoice, from: &Index, f: &Namespace, to: &Namespace) -> (r: ModelChoice)
    ensures
        same_choice_shape(r, c),
        choice_refs(r) == choice_refs(c).map_values(|x: Reference| retarget(x, from.path@, f@, to@)),
{
    match c {
        ModelChoice::Single(m) => {
            let BlockModel { model, x, y, uvlock, weight } = m;
            let model = retarget_ns(model, Kind::Model, from, f, to);
            let r = ModelChoice::Single(BlockModel { model, x, y, uvlock, weight });
            assert(choice_refs(r) =~= choice_refs(c).map_values(
                |x: Reference| retarget(x, from.path@, f@, to@),
            ));
            r
        },
        ModelChoice::Multiple(v) => ModelChoice::Multiple(retarget_block_models(v, from, f, to)),
    }
}

impl BlockState {
    /// No two variants share a name.
    pub open spec fn wf(&self) -> bool {
        match self.data {
            BlockStateFormat::Variants(v) => forall|i: int, j: int|
                0 <= i < j < v@.len() ==> (#[trigger] v@[i]).0@ != (#[trigger] v@[j]).0@,
            BlockStateFormat::Multipart(_) => true,
        }
    }

    /// The slots of every model this definition uses, under its own project.
    pub fn relation(&self) -> (r: Vec<Index>)
        ensures
            r@.map_values(|i: Index| i@) == blockstate_refs(*self).map_values(
                |x: Reference| ref_slot(self.pid as nat, x),
            ),
    {
        let mut out: Vec<Index> = Vec::new();
        match &self.data {
            BlockStateFormat::Variants(v) => {
                let ghost cs = v@.map_values(|e: (String, ModelChoice)| e.1);
                let mut i: usize = 0;
                assert(cs.take(0) =~= Seq::<ModelChoice>::empty());
                while i < v.len()
                    invariant
                        i <= v@.len(),
                        cs.len() == v@.len(),
                        forall|k: int| 0 <= k < v@.len() ==> cs[k] == (#[trigger] v@[k]).1,
                        out@.map_values(|i: Index| i@) == choices_refs(cs.take(i as int)).map_values(
                            |x: Reference| ref_slot(self.pid as nat, x),
                        ),
                    decreases v@.len() - i,
                {
                    push_choice_slots(&v[i].1, self.pid, &mut out);
                    proof {
                        let c = v@[i as int].1;
                        assert(cs.take(i + 1) =~= cs.take(i as int).push(c));
                        lemma_choices_push(cs.take(i as int), c);
                        lemma_map_concat(choices_refs(cs.take(i as int)), choice_refs(c), |x: Reference| ref_slot(self.pid as nat, x));
                        assert(out@.map_values(|i: Index| i@) =~= choices_refs(
                            cs.take(i + 1),
                        ).map_values(|x: Reference| ref_slot(self.pid as nat, x)));
                    }
                    i = i + 1;
                }
                assert(cs.take(i as int) =~= cs);
            },
            BlockStateFormat::Multipart(v) => {
                let ghost cs = v@.map_values(|c: Multipart| c.apply);
                let mut i: usize = 0;
                assert(cs.take(0) =~= Seq::<ModelChoice>::empty());
                while i < v.len()
                    invariant
                        i <= v@.len(),
                        cs.len() == v@.len(),
                        forall|k: int| 0 <= k < v@.len() ==> cs[k] == (#[trigger] v@[k]).apply,
                        out@.map_values(|i: Index| i@) == choices_refs(cs.take(i as int)).map_values(
                            |x: Reference| ref_slot(self.pid as nat, x),
                        ),
                    decreases v@.len() - i,
                {
                    push_choice_slots(&v[i].apply, self.pid, &mut out);
                    proof {
                        let c = v@[i as int].apply;
                        assert(cs.take(i + 1) =~= cs.take(i as int).push(c));
                        lemma_choices_push(cs.take(i as int), c);
                        lemma_map_concat(choices_refs(cs.take(i as int)), choice_refs(c), |x: Reference| ref_slot(self.pid as nat, x));
                        assert(out@.map_values(|i: Index| i@) =~= choices_refs(
                            cs.take(i + 1),
                        ).map_values(|x: Reference| ref_slot(self.pid as nat, x)));
                    }
                    i = i + 1;
                }
                assert(cs.take(i as int) =~= cs);
            },
        }
        out
    }

    /// Points every model reference at the slot `from` to the identifier that
    /// `to`'s path names; if that path names none, nothing changes.
    pub fn modify_relation(self, from: &Index, to: &Index) -> (r: BlockState)
        ensures
            match (path_reads_as(from.path@), path_reads_as(to.path@)) {
                (Ok(fv), Ok(t)) => same_but_references(r, self) && blockstate_refs(r) == blockstate_refs(
                    self,
                ).map_values(|x: Reference| retarget(x, from.path@, fv, t)) && (fv == t ==> blockstate_refs(r) == blockstate_refs(self)),
                _ => r == self,
            },
            r.wf() == self.wf(),
    {
        let f = match from_index(from) {
            Ok(f) => f,
            Err(_) => {
                return self;
            },
        };
        let t = match from_index(to) {
            Ok(t) => t,
            Err(_) => {
                return self;
            },
        };
        let BlockState { pid, data } = self;
        let data = match data {
            BlockStateFormat::Variants(v) => {
                let ghost orig = v@;
                let ghost cs = orig.map_values(|e: (String, ModelChoice)| e.1);
                let mut rest = v;
                let mut out: Vec<(String, ModelChoice)> = Vec::new();
                assert(cs.take(0) =~= Seq::<ModelChoice>::empty());
                while rest.len() > 0
                    invariant
                        out@.len() <= orig.len(),
                        cs.len() == orig.len(),
                        forall|k: int| 0 <= k < orig.len() ==> cs[k] == (#[trigger] orig[k]).1,
                        rest@ == orig.skip(out@.len() as int),
                        forall|i: int|
                            0 <= i < out@.len() ==> (#[trigger] out@[i]).0@ == orig[i].0@
                                && same_choice_shape(out@[i].1, orig[i].1),
                        choices_refs(out@.map_values(|e: (String, ModelChoice)| e.1)) == choices_refs(
                            cs.take(out@.len() as int),
                        ).map_values(|x: Reference| retarget(x, from.path@, f@, t@)),
                    decreases rest@.len(),
                {
                    let ghost done = out@.map_values(|e: (String, ModelChoice)| e.1);
                    let (key, c) = rest.remove(0);
                    let ghost c0 = c;
                    let c = retarget_choice(c, from, &f, &t);
                    out.push((key, c));
                    proof {
                        let n = out@.len() - 1;
                        assert(out@.map_values(|e: (String, ModelChoice)| e.1) =~= done.push(c));
                        lemma_choices_push(done, c);
                        assert(cs.take(n + 1) =~= cs.take(n).push(c0));
                        lemma_choices_push(cs.take(n), c0);
                        lemma_map_concat(choices_refs(cs.take(n)), choice_refs(c0), |x: Reference| retarget(x, from.path@, f@, t@));
                        assert(choices_refs(out@.map_values(|e: (String, ModelChoice)| e.1))
                            =~= choices_refs(cs.take(n + 1)).map_values(|x: Reference| retarget(x, from.path@, f@, t@)));
                    }
                    assert(rest@ =~= orig.skip(out@.len() as int));
                }
                assert(cs.take(out@.len() as int) =~= cs);
                BlockStateFormat::Variants(out)
            },
            BlockStateFormat::Multipart(v) => {
                let ghost orig = v@;
                let ghost cs = orig.map_values(|c: Multipart| c.apply);
                let mut rest = v;
                let mut out: Vec<Multipart> = Vec::new();
                assert(cs.take(0) =~= Seq::<ModelChoice>::empty());
                while rest.len() > 0
                    invariant
                        out@.len() <= orig.len(),
                        cs.len() == orig.len(),
                        forall|k: int| 0 <= k < orig.len() ==> cs[k] == (#[trigger] orig[k]).apply,
                        rest@ == orig.skip(out@.len() as int),
                        forall|i: int|
                            0 <= i < out@.len() ==> (#[trigger] out@[i]).when == orig[i].when
                                && same_choice_shape(out@[i].apply, orig[i].apply),
                        choices_refs(out@.map_values(|c: Multipart| c.apply)) == choices_refs(
                            cs.take(out@.len() as int),
                        ).map_values(|x: Reference| retarget(x, from.path@, f@, t@)),
                    decreases rest@.len(),
                {
                    let ghost done = out@.map_values(|c: Multipart| c.apply);
                    let Multipart { when, apply } = rest.remove(0);
                    let ghost c0 = apply;
                    let apply = retarget_choice(apply, from, &f, &t);
                    let ghost c1 = apply;
                    out.push(Multipart { when, apply });
                    proof {
                        let n = out@.len() - 1;
                        assert(out@.map_values(|c: Multipart| c.apply) =~= done.push(c1));
                        lemma_choices_push(done, c1);
                        assert(cs.take(n + 1) =~= cs.take(n).push(c0));
                        lemma_choices_push(cs.take(n), c0);
                        lemma_map_concat(choices_refs(cs.take(n)), choice_refs(c0), |x: Reference| retarget(x, from.path@, f@, t@));
                        assert(choices_refs(out@.map_values(|c: Multipart| c.apply))
                            =~= choices_refs(cs.take(n + 1)).map_values(|x: Reference| retarget(x, from.path@, f@, t@)));
                    }
                    assert(rest@ =~= orig.skip(out@.len() as int));
                }
                assert(cs.take(out@.len() as int) =~= cs);
                BlockStateFormat::Multipart(out)
            },
        };
        let r = BlockState { pid, data };
        proof {
            let rr = r;
            let ss = self;
            match (rr.data, ss.data) {
                (BlockStateFormat::Variants(u), BlockStateFormat::Variants(v)) => {
                    assert forall|i: int, j: int| 0 <= i < j < u@.len() implies (u@[i].0@ != u@[j].0@)
                        == (v@[i].0@ != v@[j].0@) by {
                        assert(u@[i].0@ == v@[i].0@);
                        assert(u@[j].0@ == v@[j].0@);
                    }
                },
                _ => {},
            }
            if f@ == t@ {
                assert(blockstate_refs(self).map_values(|x: Reference| retarget(x, from.path@, f@, t@))
                    =~= blockstate_refs(self));
            }
        }
        r
    }
}

} // verus!
