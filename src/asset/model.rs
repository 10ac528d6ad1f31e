//! Item and block models: a parent, texture variables, geometry, and overrides
//! that pick another model under a predicate.
use crate::index::{from_index, into_index, ref_slot, retarget, retarget_ns, Index, Reference};
use crate::namespace::{lemma_order_facts, lemma_order_trans, path_reads_as, Kind, Namespace};
use core::cmp::Ordering;
use vstd::prelude::*;

verus! {

broadcast use vstd::seq_lib::group_to_multiset_ensures;

/// Which side a block model is lit from in inventories.
#[derive(Debug, Clone, Copy, PartialEq, Eq, Structural)]
pub enum Side {
    Front,
    Side,
}

/// The condition under which an override applies.
#[derive(Debug, Clone)]
pub struct Predicate {
    pub custom_model_data: Option<u64>,
    /// The other conditions, each a name and its number as the file writes it.
    pub others: Vec<(String, String)>,
}

/// Use `model` in place of this one where `predicate` holds.
#[derive(Debug, Clone)]
pub struct Override {
    pub predicate: Predicate,
    pub model: Namespace,
}

/// A model file. `display` and `elements` are kept as the JSON text they were read from.
#[derive(Debug, Clone)]
pub struct Model {
    pub pid: usize,
    pub parent: Option<Namespace>,
    pub ambientocclusion: Option<bool>,
    pub display: Option<String>,
    pub textures: Option<Vec<(String, Namespace)>>,
    pub elements: Option<String>,
    pub gui_light: Option<Side>,
    pub overrides: Option<Vec<Override>>,
}

/// Two overrides of a merged model that share their custom model data but name
/// different models; the game uses the first.
#[derive(Debug, Clone)]
pub struct PredicateConflict {
    pub custom_model_data: u64,
    pub first: Namespace,
    pub second: Namespace,
}

impl View for PredicateConflict {
    type V = (u64, (Seq<char>, Seq<char>), (Seq<char>, Seq<char>));

    open spec fn view(&self) -> Self::V {
        (self.custom_model_data, self.first@, self.second@)
    }
}

/// Absent custom model data comes first, then the values in ascending order.
pub open spec fn cmd_cmp(a: Option<u64>, b: Option<u64>) -> Ordering {
    match (a, b) {
        (None, None) => Ordering::Equal,
        (None, Some(_)) => Ordering::Less,
        (Some(_), None) => Ordering::Greater,
        (Some(x), Some(y)) => if x < y {
            Ordering::Less
        } else if x > y {
            Ordering::Greater
        } else {
            Ordering::Equal
        },
    }
}

/// Overrides are ordered by custom model data, then by the model they name.
pub open spec fn override_cmp(a: Override, b: Override) -> Ordering {
    let c = cmd_cmp(a.predicate.custom_model_data, b.predicate.custom_model_data);
    if c == Ordering::Equal {
        a.model.order(&b.model)
    } else {
        c
    }
}

pub open spec fn override_le(a: Override, b: Override) -> bool {
    override_cmp(a, b) != Ordering::Greater
}

pub open spec fn overrides_sorted(s: Seq<Override>) -> bool {
    forall|i: int, j: int| 0 <= i < j < s.len() ==> override_le(s[i], s[j])
}

pub open spec fn override_list(o: Option<Vec<Override>>) -> Seq<Override> {
    match o {
        Some(v) => v@,
        None => seq![],
    }
}

/// Two overrides share their custom model data but name different models.
pub open spec fn clash(a: Override, b: Override) -> bool {
    a.predicate.custom_model_data is Some && a.predicate.custom_model_data
        == b.predicate.custom_model_data && a.model@ != b.model@
}

/// One record for each override of `s`, in order, that clashes with `b`.
pub open spec fn clashes_with(s: Seq<Override>, b: Override) -> Seq<
    (u64, (Seq<char>, Seq<char>), (Seq<char>, Seq<char>)),
>
    decreases s.len(),
{
    if s.len() == 0 {
        seq![]
    } else {
        let rest = clashes_with(s.drop_last(), b);
        let a = s.last();
        if clash(a, b) {
            rest.push((a.predicate.custom_model_data->0, a.model@, b.model@))
        } else {
            rest
        }
    }
}

/// One record for each pair of overrides of `s` that clash, the earlier first:
/// pairs are listed by their later member, then by their earlier one.
pub open spec fn predicate_clashes(s: Seq<Override>) -> Seq<
    (u64, (Seq<char>, Seq<char>), (Seq<char>, Seq<char>)),
>
    decreases s.len(),
{
    if s.len() == 0 {
        seq![]
    } else {
        predicate_clashes(s.drop_last()) + clashes_with(s.drop_last(), s.last())
    }
}

proof fn lemma_override_facts(a: Override, b: Override)
    ensures
        (override_cmp(a, b) == Ordering::Greater) == (override_cmp(b, a) == Ordering::Less),
{
    lemma_order_facts(a.model, b.model);
    lemma_order_facts(b.model, a.model);
}

proof fn lemma_override_trans(a: Override, b: Override, c: Override)
    requires
        override_le(a, b),
        override_le(b, c),
    ensures
        override_le(a, c),
{
    lemma_order_facts(a.model, b.model);
    lemma_order_facts(b.model, c.model);
    lemma_order_facts(a.model, c.model);
    lemma_order_facts(c.model, a.model);
    if cmd_cmp(a.predicate.custom_model_data, b.predicate.custom_model_data) == Ordering::Equal
        && cmd_cmp(b.predicate.custom_model_data, c.predicate.custom_model_data) == Ordering::Equal {
        lemma_order_trans(a.model, b.model, c.model);
    }
}

fn compare_overrides(a: &Override, b: &Override) -> (r: Ordering)
    ensures
        r == override_cmp(*a, *b),
{
    let c = match (a.predicate.custom_model_data, b.predicate.custom_model_data) {
        (None, None) => Ordering::Equal,
        (None, Some(_)) => Ordering::Less,
        (Some(_), None) => Ordering::Greater,
        (Some(x), Some(y)) => if x < y {
            Ordering::Less
        } else if x > y {
            Ordering::Greater
        } else {
            Ordering::Equal
        },
    };
    match c {
        Ordering::Equal => a.model.compare(&b.model),
        _ => c,
    }
}

fn is_greater(o: Ordering) -> (r: bool)
    ensures
        r == (o == Ordering::Greater),
{
    match o {
        Ordering::Greater => true,
        _ => false,
    }
}

/// Where `x` goes into the sorted list `t`: after every override that does
/// not come later than it.
pub open spec fn insert_pos(t: Seq<Override>, x: Override) -> int
    decreases t.len(),
{
    if t.len() == 0 {
        0
    } else if override_cmp(t.last(), x) == Ordering::Greater {
        insert_pos(t.drop_last(), x)
    } else {
        t.len() as int
    }
}

/// The stable sort of `s`: each override in turn is placed after those that
/// do not come later than it, so overrides that compare equal keep their order.
pub open spec fn stable_sort(s: Seq<Override>) -> Seq<Override>
    decreases s.len(),
{
    if s.len() == 0 {
        seq![]
    } else {
        let t = stable_sort(s.drop_last());
        t.insert(insert_pos(t, s.last()), s.last())
    }
}

proof fn lemma_insert_pos(t: Seq<Override>, x: Override)
    ensures
        0 <= insert_pos(t, x) <= t.len(),
        insert_pos(t, x) > 0 ==> override_le(t[insert_pos(t, x) - 1], x),
        forall|k: int| insert_pos(t, x) <= k < t.len() ==> override_cmp(#[trigger] t[k], x) == Ordering::Greater,
    decreases t.len(),
{
    if t.len() > 0 && override_cmp(t.last(), x) == Ordering::Greater {
        lemma_insert_pos(t.drop_last(), x);
        let p = insert_pos(t, x);
        assert forall|k: int| p <= k < t.len() implies override_cmp(#[trigger] t[k], x) == Ordering::Greater by {
            if k < t.len() - 1 {
                assert(t.drop_last()[k] == t[k]);
            }
        }
    }
}

proof fn lemma_insert_sorted(t: Seq<Override>, x: Override)
    requires
        overrides_sorted(t),
    ensures
        overrides_sorted(t.insert(insert_pos(t, x), x)),
{
    lemma_insert_pos(t, x);
    let p = insert_pos(t, x);
    assert forall|i: int, j: int|
        0 <= i < j < t.len() + 1 implies override_le(
        #[trigger] t.insert(p, x)[i],
        #[trigger] t.insert(p, x)[j],
    ) by {
        if j == p {
            if i < p - 1 {
                lemma_override_trans(t[i], t[p - 1], x);
            }
        } else if i == p {
            lemma_override_facts(t[j - 1], x);
        }
    }
}

proof fn lemma_stable_sort(s: Seq<Override>)
    ensures
        overrides_sorted(stable_sort(s)),
        stable_sort(s).to_multiset() == s.to_multiset(),
        stable_sort(s).len() == s.len(),
    decreases s.len(),
{
    if s.len() > 0 {
        lemma_stable_sort(s.drop_last());
        let t = stable_sort(s.drop_last());
        lemma_insert_sorted(t, s.last());
        lemma_insert_pos(t, s.last());
        assert(s =~= s.drop_last().push(s.last()));
        assert(s.drop_last().push(s.last()) =~= s.drop_last().insert(s.len() - 1, s.last()));
    }
}

proof fn lemma_sort_of_sorted(t: Seq<Override>)
    requires
        overrides_sorted(t),
    ensures
        stable_sort(t) == t,
    decreases t.len(),
{
    if t.len() > 0 {
        let t0 = t.drop_last();
        assert(overrides_sorted(t0));
        lemma_sort_of_sorted(t0);
        if t.len() > 1 {
            assert(override_le(t[t.len() - 2], t[t.len() - 1]));
            assert(t0.last() == t[t.len() - 2]);
        }
        assert(t0.insert(insert_pos(t0, t.last()), t.last()) =~= t);
    }
}

/// Sorting a sorted list with more overrides after it gives the sort of both.
pub proof fn lemma_sort_append(a: Seq<Override>, b: Seq<Override>)
    ensures
        stable_sort(stable_sort(a) + b) == stable_sort(a + b),
    decreases b.len(),
{
    if b.len() == 0 {
        lemma_stable_sort(a);
        lemma_sort_of_sorted(stable_sort(a));
        assert(stable_sort(a) + b =~= stable_sort(a));
        assert(a + b =~= a);
    } else {
        lemma_sort_append(a, b.drop_last());
        assert((stable_sort(a) + b).drop_last() =~= stable_sort(a) + b.drop_last());
        assert((a + b).drop_last() =~= a + b.drop_last());
        assert((stable_sort(a) + b).last() == b.last());
        assert((a + b).last() == b.last());
    }
}

/// The overrides sorted stably: each is inserted after those that do not
/// come later than it.
pub fn sort_overrides(v: Vec<Override>) -> (r: Vec<Override>)
    ensures
        r@ == stable_sort(v@),
        overrides_sorted(r@),
        r@.to_multiset() == v@.to_multiset(),
{
    let ghost orig = v@;
    let total = v.len();
    let mut rest = v;
    let mut out: Vec<Override> = Vec::new();
    let mut taken: usize = 0;
    assert(orig.take(0) =~= Seq::<Override>::empty());
    while rest.len() > 0
        invariant
            rest@ == orig.skip(taken as int),
            taken <= orig.len(),
            total == orig.len(),
            out@ == stable_sort(orig.take(taken as int)),
        decreases rest@.len(),
    {
        let x = rest.remove(0);
        assert(x == orig[taken as int]);
        let mut p = out.len();
        assert(out@.take(p as int) =~= out@);
        while p > 0 && is_greater(compare_overrides(&out[p - 1], &x))
            invariant
                p <= out@.len(),
                insert_pos(out@, x) == insert_pos(out@.take(p as int), x),
            decreases p,
        {
            assert(out@.take(p as int).drop_last() =~= out@.take(p - 1));
            assert(out@.take(p as int).last() == out@[p - 1]);
            p = p - 1;
        }
        proof {
            if p > 0 {
                assert(out@.take(p as int).last() == out@[p - 1]);
            } else {
                assert(out@.take(0) =~= Seq::<Override>::empty());
            }
            assert(orig.take(taken + 1).drop_last() =~= orig.take(taken as int));
            assert(orig.take(taken + 1).last() == x);
        }
        out.insert(p, x);
        taken = taken + 1;
        assert(rest@ =~= orig.skip(taken as int));
    }
    assert(orig.take(taken as int) =~= orig);
    proof {
        lemma_stable_sort(orig);
    }
    out
}

/// Every clashing pair of an override list.
fn find_clashes(s: &Vec<Override>) -> (r: Vec<PredicateConflict>)
    ensures
        r@.map_values(|c: PredicateConflict| c@) == predicate_clashes(s@),
{
    let mut out: Vec<PredicateConflict> = Vec::new();
    let mut j: usize = 0;
    assert(s@.take(0) =~= Seq::<Override>::empty());
    while j < s.len()
        invariant
            j <= s@.len(),
            out@.map_values(|c: PredicateConflict| c@) == predicate_clashes(s@.take(j as int)),
        decreases s@.len() - j,
    {
        let b = &s[j];
        let ghost base = predicate_clashes(s@.take(j as int));
        let mut i: usize = 0;
        assert(s@.take(0) =~= Seq::<Override>::empty());
        assert(base + clashes_with(s@.take(0), *b) =~= base);
        while i < j
            invariant
                i <= j < s@.len(),
                b == s@[j as int],
                base == predicate_clashes(s@.take(j as int)),
                out@.map_values(|c: PredicateConflict| c@) == base + clashes_with(s@.take(i as int), *b),
            decreases j - i,
        {
            let a = &s[i];
            let ghost prev = out@;
            assert(s@.take(i + 1).drop_last() =~= s@.take(i as int));
            assert(s@.take(i + 1).last() == *a);
            match (a.predicate.custom_model_data, b.predicate.custom_model_data) {
                (Some(x), Some(y)) => {
                    if x == y && !(a.model == b.model) {
                        let c = PredicateConflict {
                            custom_model_data: x,
                            first: a.model.duplicate(),
                            second: b.model.duplicate(),
                        };
                        out.push(c);
                        assert(out@.map_values(|c: PredicateConflict| c@) =~= prev.map_values(
                            |c: PredicateConflict| c@,
                        ).push(c@));
                        assert(clash(*a, *b));
                    } else {
                        assert(!clash(*a, *b));
                    }
                },
                _ => {
                    assert(!clash(*a, *b));
                },
            }
            assert(out@.map_values(|c: PredicateConflict| c@) =~= base + clashes_with(
                s@.take(i + 1),
                *b,
            ));
            i = i + 1;
        }
        assert(s@.take(j + 1).drop_last() =~= s@.take(j as int));
        assert(s@.take(j + 1).last() == *b);
        j = j + 1;
    }
    assert(s@.take(j as int) =~= s@);
    out
}

/// The references a model declares: its parent, its textures, then the models
/// of its overrides.
pub open spec fn model_refs(m: Model) -> Seq<Reference> {
    let parent = match m.parent {
        Some(p) => seq![(Kind::Model, p@)],
        None => seq![],
    };
    parent + texture_refs(m.textures) + override_list(m.overrides).map_values(
        |o: Override| (Kind::Model, o.model@),
    )
}

pub open spec fn texture_refs(t: Option<Vec<(String, Namespace)>>) -> Seq<Reference> {
    match t {
        Some(v) => v@.map_values(|e: (String, Namespace)| (Kind::Texture, e.1@)),
        None => seq![],
    }
}

/// `a` has the fields of `b`, but for the identifiers its references name.
pub open spec fn same_but_references(a: Model, b: Model) -> bool {
    &&& a.pid == b.pid
    &&& a.ambientocclusion == b.ambientocclusion
    &&& a.display == b.display
    &&& a.elements == b.elements
    &&& a.gui_light == b.gui_light
    &&& a.parent is Some == b.parent is Some
    &&& a.textures is Some == b.textures is Some
    &&& a.overrides is Some == b.overrides is Some
    &&& a.textures is Some ==> a.textures->0@.len() == b.textures->0@.len() && forall|i: int|
        0 <= i < a.textures->0@.len() ==> (#[trigger] a.textures->0@[i]).0@ == b.textures->0@[i].0@
    &&& override_list(a.overrides).len() == override_list(b.overrides).len()
    &&& forall|i: int|
        0 <= i < override_list(a.overrides).len() ==> (#[trigger] override_list(
            a.overrides,
        )[i]).predicate == override_list(b.overrides)[i].predicate
}

fn retarget_textures(v: Vec<(String, Namespace)>, from: &Index, f: &Namespace, to: &Namespace) -> (r: Vec<
    (String, Namespace),
>)
    ensures
        r@.len() == v@.len(),
        forall|i: int| 0 <= i < v@.len() ==> (#[trigger] r@[i]).0@ == v@[i].0@,
        r@.map_values(|e: (String, Namespace)| (Kind::Texture, e.1@)) == v@.map_values(
            |e: (String, Namespace)| (Kind::Texture, e.1@),
        ).map_values(|x: Reference| retarget(x, from.path@, f@, to@)),
{
    let ghost orig = v@;
    let mut rest = v;
    let mut out: Vec<(String, Namespace)> = Vec::new();
    while rest.len() > 0
        invariant
            out@.len() <= orig.len(),
            rest@ == orig.skip(out@.len() as int),
            forall|i: int| 0 <= i < out@.len() ==> (#[trigger] out@[i]).0@ == orig[i].0@ && (
            Kind::Texture, out@[i].1@) == retarget((Kind::Texture, orig[i].1@), from.path@, f@, to@),
        decreases rest@.len(),
    {
        let (key, ns) = rest.remove(0);
        let ns = retarget_ns(ns, Kind::Texture, from, f, to);
        out.push((key, ns));
        assert(rest@ =~= orig.skip(out@.len() as int));
    }
    assert(out@.map_values(|e: (String, Namespace)| (Kind::Texture, e.1@)) =~= orig.map_values(
        |e: (String, Namespace)| (Kind::Texture, e.1@),
    ).map_values(|x: Reference| retarget(x, from.path@, f@, to@)));
    out
}

fn retarget_overrides(v: Vec<Override>, from: &Index, f: &Namespace, to: &Namespace) -> (r: Vec<Override>)
    ensures
        r@.len() == v@.len(),
        forall|i: int| 0 <= i < v@.len() ==> (#[trigger] r@[i]).predicate == v@[i].predicate,
        r@.map_values(|o: Override| (Kind::Model, o.model@)) == v@.map_values(
            |o: Override| (Kind::Model, o.model@),
        ).map_values(|x: Reference| retarget(x, from.path@, f@, to@)),
{
    let ghost orig = v@;
    let mut rest = v;
    let mut out: Vec<Override> = Vec::new();
    while rest.len() > 0
        invariant
            out@.len() <= orig.len(),
            rest@ == orig.skip(out@.len() as int),
            forall|i: int| 0 <= i < out@.len() ==> (#[trigger] out@[i]).predicate == orig[i].predicate
                && (Kind::Model, out@[i].model@) == retarget(
                (Kind::Model, orig[i].model@),
                from.path@,
                f@,
                to@,
            ),
        decreases rest@.len(),
    {
        let o = rest.remove(0);
        let Override { predicate, model } = o;
        let model = retarget_ns(model, Kind::Model, from, f, to);
        out.push(Override { predicate, model });
        assert(rest@ =~= orig.skip(out@.len() as int));
    }
    assert(out@.map_values(|o: Override| (Kind::Model, o.model@)) =~= orig.map_values(
        |o: Override| (Kind::Model, o.model@),
    ).map_values(|x: Reference| retarget(x, from.path@, f@, to@)));
    out
}

impl Model {
    /// No two texture variables share a name.
    pub open spec fn wf(&self) -> bool {
        self.textures is Some ==> forall|i: int, j: int|
            0 <= i < j < self.textures->0@.len() ==> (#[trigger] self.textures->0@[i]).0@
                != (#[trigger] self.textures->0@[j]).0@
    }

    /// The slots this model refers to, each under the model's own project.
    pub fn relation(&self) -> (r: Vec<Index>)
        ensures
            r@.map_values(|i: Index| i@) == model_refs(*self).map_values(
                |x: Reference| ref_slot(self.pid as nat, x),
            ),
    {
        let ghost target = model_refs(*self).map_values(|x: Reference| ref_slot(self.pid as nat, x));
        let mut r: Vec<Index> = Vec::new();
        match &self.parent {
            Some(p) => {
                r.push(into_index(Kind::Model, p, self.pid));
            },
            None => {},
        }
        let ghost base = r@.len();
        assert(r@.map_values(|i: Index| i@) =~= target.take(r@.len() as int));
        match &self.textures {
            Some(t) => {
                let mut i: usize = 0;
                while i < t.len()
                    invariant
                        i <= t@.len(),
                        r@.len() == base + i,
                        base + t@.len() <= target.len(),
                        forall|k: int| 0 <= k < t@.len() ==> target[base + k] == ref_slot(
                            self.pid as nat,
                            (Kind::Texture, (#[trigger] t@[k]).1@),
                        ),
                        r@.map_values(|i: Index| i@) == target.take(r@.len() as int),
                    decreases t@.len() - i,
                {
                    r.push(into_index(Kind::Texture, &t[i].1, self.pid));
                    assert(r@.map_values(|i: Index| i@) =~= target.take(r@.len() as int));
                    i = i + 1;
                }
            },
            None => {},
        }
        let ghost base2 = r@.len();
        match &self.overrides {
            Some(o) => {
                let mut i: usize = 0;
                while i < o.len()
                    invariant
                        i <= o@.len(),
                        r@.len() == base2 + i,
                        base2 + o@.len() == target.len(),
                        forall|k: int| 0 <= k < o@.len() ==> target[base2 + k] == ref_slot(
                            self.pid as nat,
                            (Kind::Model, (#[trigger] o@[k]).model@),
                        ),
                        r@.map_values(|i: Index| i@) == target.take(r@.len() as int),
                    decreases o@.len() - i,
                {
                    r.push(into_index(Kind::Model, &o[i].model, self.pid));
                    assert(r@.map_values(|i: Index| i@) =~= target.take(r@.len() as int));
                    i = i + 1;
                }
            },
            None => {},
        }
        assert(target.take(target.len() as int) =~= target);
        r
    }

    /// Points every reference at the slot `from` to the identifier that `to`'s
    /// path names; if that path names none, the model is returned unchanged.
    pub fn modify_relation(self, from: &Index, to: &Index) -> (r: Model)
        ensures
            match (path_reads_as(from.path@), path_reads_as(to.path@)) {
                (Ok(fv), Ok(t)) => same_but_references(r, self) && model_refs(r) == model_refs(self).map_values(
                    |x: Reference| retarget(x, from.path@, fv, t),
                ) && (fv == t ==> model_refs(r) == model_refs(self)),
                _ => r == self,
            },
            r.wf() == self.wf(),
    {
        let f = match from_index(from) {
            Ok(f) => f,
            Err(_) => {
                return self;
            },
        };
        let t = match from_index(to) {
            Ok(t) => t,
            Err(_) => {
                return self;
            },
        };
        let ghost old_self = self;
        let Model {
            pid,
            parent,
            ambientocclusion,
            display,
            textures,
            elements,
            gui_light,
            overrides,
        } = self;
        let parent = match parent {
            Some(p) => Some(retarget_ns(p, Kind::Model, from, &f, &t)),
            None => None,
        };
        let textures = match textures {
            Some(v) => Some(retarget_textures(v, from, &f, &t)),
            None => None,
        };
        let overrides = match overrides {
            Some(v) => Some(retarget_overrides(v, from, &f, &t)),
            None => None,
        };
        let r = Model {
            pid,
            parent,
            ambientocclusion,
            display,
            textures,
            elements,
            gui_light,
            overrides,
        };
        proof {
            let g = |x: Reference| retarget(x, from.path@, f@, t@);
            assert(override_list(r.overrides).map_values(|o: Override| (Kind::Model, o.model@))
                =~= override_list(old_self.overrides).map_values(
                |o: Override| (Kind::Model, o.model@),
            ).map_values(g));
            assert(texture_refs(r.textures) =~= texture_refs(old_self.textures).map_values(g));
            let before = match old_self.parent {
                Some(p) => seq![(Kind::Model, p@)],
                None => seq![],
            };
            let ghost rr = r;
            let after = match rr.parent {
                Some(p) => seq![(Kind::Model, p@)],
                None => seq![],
            };
            assert(after =~= before.map_values(g));
            assert(model_refs(r) =~= model_refs(old_self).map_values(g));
            if f@ == t@ {
                assert(model_refs(old_self).map_values(g) =~= model_refs(old_self));
            }
            if old_self.textures is Some {
                let a = rr.textures->0@;
                let b = old_self.textures->0@;
                assert forall|i: int, j: int| 0 <= i < j < a.len() implies (a[i].0@ != a[j].0@) == (
                b[i].0@ != b[j].0@) by {
                    assert(a[i].0@ == b[i].0@);
                    assert(a[j].0@ == b[j].0@);
                }
            }
        }
        r
    }

    /// Combines this model with `other`, a later version of the same file:
    /// every field is taken from `other` but the overrides, which are those of
    /// both, sorted stably. Every two overrides that share their custom model
    /// data but name different models are reported.
    pub fn merge(self, other: Model) -> (r: (Model, Vec<PredicateConflict>))
        ensures
            r.0.pid == other.pid,
            r.0.parent == other.parent,
            r.0.ambientocclusion == other.ambientocclusion,
            r.0.display == other.display,
            r.0.textures == other.textures,
            other.wf() ==> r.0.wf(),
            r.0.elements == other.elements,
            r.0.gui_light == other.gui_light,
            r.0.overrides is None <==> (self.overrides is None && other.overrides is None),
            override_list(r.0.overrides) == stable_sort(
                override_list(self.overrides) + override_list(other.overrides),
            ),
            overrides_sorted(override_list(r.0.overrides)),
            override_list(r.0.overrides).to_multiset() == (override_list(self.overrides)
                + override_list(other.overrides)).to_multiset(),
            override_list(r.0.overrides).len() == override_list(self.overrides).len()
                + override_list(other.overrides).len(),
            r.1@.map_values(|c: PredicateConflict| c@) == predicate_clashes(
                override_list(r.0.overrides),
            ),
    {
        let Model {
            pid,
            parent,
            ambientocclusion,
            display,
            textures,
            elements,
            gui_light,
            overrides,
        } = other;
        let merged = match (self.overrides, overrides) {
            (None, None) => None,
            (a, b) => {
                let mut all = match a {
                    Some(v) => v,
                    None => Vec::new(),
                };
                let mut tail = match b {
                    Some(v) => v,
                    None => Vec::new(),
                };
                all.append(&mut tail);
                Some(sort_overrides(all))
            },
        };
        let clashes = match &merged {
            Some(v) => find_clashes(v),
            None => Vec::new(),
        };
        let m = Model {
            pid,
            parent,
            ambientocclusion,
            display,
            textures,
            elements,
            gui_light,
            overrides: merged,
        };
        proof {
            let l = override_list(m.overrides);
            let both = override_list(self.overrides) + override_list(other.overrides);
            if m.overrides is None {
                assert(both =~= Seq::<Override>::empty());
            }
            lemma_stable_sort(both);
            assert(l.to_multiset().len() == l.len());
            assert(both.to_multiset().len() == both.len());
        }
        (m, clashes)
    }
}

proof fn lemma_clashes_with_has(t: Seq<Override>, b: Override, i: int)
    requires
        0 <= i < t.len(),
        clash(t[i], b),
    ensures
        clashes_with(t, b).contains((t[i].predicate.custom_model_data->0, t[i].model@, b.model@)),
    decreases t.len(),
{
    let rec = (t[i].predicate.custom_model_data->0, t[i].model@, b.model@);
    let r = clashes_with(t, b);
    if i == t.len() - 1 {
        assert(r[r.len() - 1] == rec);
    } else {
        lemma_clashes_with_has(t.drop_last(), b, i);
        let r0 = clashes_with(t.drop_last(), b);
        let k = choose|k: int| 0 <= k < r0.len() && r0[k] == rec;
        assert(r[k] == rec);
    }
}

/// Every two overrides of a list that share their custom model data but name
/// different models are reported together, the earlier first.
pub proof fn law_every_clash_reported(s: Seq<Override>, i: int, j: int)
    requires
        0 <= i < j < s.len(),
        clash(s[i], s[j]),
    ensures
        predicate_clashes(s).contains((s[i].predicate.custom_model_data->0, s[i].model@, s[j].model@)),
    decreases s.len(),
{
    let rec = (s[i].predicate.custom_model_data->0, s[i].model@, s[j].model@);
    let p0 = predicate_clashes(s.drop_last());
    let c = clashes_with(s.drop_last(), s.last());
    if j == s.len() - 1 {
        lemma_clashes_with_has(s.drop_last(), s.last(), i);
        let k = choose|k: int| 0 <= k < c.len() && c[k] == rec;
        assert((p0 + c)[p0.len() + k] == rec);
    } else {
        law_every_clash_reported(s.drop_last(), i, j);
        let k = choose|k: int| 0 <= k < p0.len() && p0[k] == rec;
        assert((p0 + c)[k] == rec);
    }
}

/// Merging two models reports every override of the first that clashes with
/// one of the second: the report names their custom model data and both
/// models, the one that sorts first before the other.
pub proof fn law_cross_clash_reported(a: Model, b: Model, x: int, y: int)
    requires
        0 <= x < override_list(a.overrides).len(),
        0 <= y < override_list(b.overrides).len(),
        clash(override_list(a.overrides)[x], override_list(b.overrides)[y]),
    ensures
        ({
            let merged = stable_sort(override_list(a.overrides) + override_list(b.overrides));
            let ox = override_list(a.overrides)[x];
            let oy = override_list(b.overrides)[y];
            let c = ox.predicate.custom_model_data->0;
            predicate_clashes(merged).contains((c, ox.model@, oy.model@))
                || predicate_clashes(merged).contains((c, oy.model@, ox.model@))
        }),
{
    let la = override_list(a.overrides);
    let lb = override_list(b.overrides);
    let s = la + lb;
    let r = stable_sort(s);
    let ox = la[x];
    let oy = lb[y];
    lemma_stable_sort(s);
    assert(s[x] == ox);
    assert(s[la.len() + y] == oy);
    assert(s.contains(ox));
    assert(s.contains(oy));
    assert(r.to_multiset().count(ox) > 0);
    assert(r.to_multiset().count(oy) > 0);
    assert(r.contains(ox));
    assert(r.contains(oy));
    let i = choose|i: int| 0 <= i < r.len() && r[i] == ox;
    let j = choose|j: int| 0 <= j < r.len() && r[j] == oy;
    assert(i != j);
    if i < j {
        law_every_clash_reported(r, i, j);
    } else {
        law_every_clash_reported(r, j, i);
    }
}

/// The overrides of `s`, in order, that compare equal to `x`.
pub open spec fn equal_to(s: Seq<Override>, x: Override) -> Seq<Override>
    decreases s.len(),
{
    if s.len() == 0 {
        seq![]
    } else {
        let r = equal_to(s.drop_last(), x);
        if override_cmp(s.last(), x) == Ordering::Equal {
            r.push(s.last())
        } else {
            r
        }
    }
}

proof fn lemma_equal_to_concat(a: Seq<Override>, b: Seq<Override>, x: Override)
    ensures
        equal_to(a + b, x) == equal_to(a, x) + equal_to(b, x),
    decreases b.len(),
{
    if b.len() == 0 {
        assert(a + b =~= a);
        assert(equal_to(a, x) + equal_to(b, x) =~= equal_to(a, x));
    } else {
        lemma_equal_to_concat(a, b.drop_last(), x);
        assert((a + b).drop_last() =~= a + b.drop_last());
        assert((a + b).last() == b.last());
        assert(equal_to(a + b, x) =~= equal_to(a, x) + equal_to(b, x));
    }
}

proof fn lemma_equal_to_none(b: Seq<Override>, x: Override)
    requires
        forall|k: int| 0 <= k < b.len() ==> override_cmp(#[trigger] b[k], x) != Ordering::Equal,
    ensures
        equal_to(b, x) == Seq::<Override>::empty(),
    decreases b.len(),
{
    if b.len() > 0 {
        assert forall|k: int| 0 <= k < b.drop_last().len() implies override_cmp(
            #[trigger] b.drop_last()[k],
            x,
        ) != Ordering::Equal by {
            assert(b.drop_last()[k] == b[k]);
        }
        lemma_equal_to_none(b.drop_last(), x);
    }
}

proof fn lemma_equal_key_trans(a: Override, t: Override, x: Override)
    requires
        override_cmp(a, x) == Ordering::Equal,
        override_cmp(t, x) == Ordering::Equal,
    ensures
        override_cmp(a, t) == Ordering::Equal,
{
    lemma_order_facts(a.model, x.model);
    lemma_order_facts(t.model, x.model);
    lemma_order_facts(a.model, t.model);
}

/// The sort is stable: the overrides that compare equal to any `x` come out
/// in the order they went in.
pub proof fn law_sort_is_stable(s: Seq<Override>, x: Override)
    ensures
        equal_to(stable_sort(s), x) == equal_to(s, x),
    decreases s.len(),
{
    if s.len() > 0 {
        let s0 = s.drop_last();
        let t = s.last();
        law_sort_is_stable(s0, x);
        let tt = stable_sort(s0);
        lemma_insert_pos(tt, t);
        let p = insert_pos(tt, t);
        assert(tt.insert(p, t) =~= tt.take(p) + (seq![t] + tt.skip(p)));
        assert(tt =~= tt.take(p) + tt.skip(p));
        lemma_equal_to_concat(tt.take(p), seq![t] + tt.skip(p), x);
        lemma_equal_to_concat(seq![t], tt.skip(p), x);
        lemma_equal_to_concat(tt.take(p), tt.skip(p), x);
        assert(seq![t].drop_last() =~= Seq::<Override>::empty());
        assert(equal_to(Seq::<Override>::empty(), x) == Seq::<Override>::empty());
        assert(seq![t].last() == t);
        assert(stable_sort(s) == tt.insert(p, t));
        let et = equal_to(seq![t], x);
        let e0 = equal_to(tt.take(p), x);
        let e1 = equal_to(tt.skip(p), x);
        if override_cmp(t, x) == Ordering::Equal {
            assert(et =~= seq![t]);
        } else {
            assert(et =~= Seq::<Override>::empty());
        }
        assert(equal_to(stable_sort(s), x) == e0 + (et + e1));
        assert(equal_to(tt, x) == e0 + e1);
        assert(equal_to(s, x) == if override_cmp(t, x) == Ordering::Equal {
            equal_to(s0, x).push(t)
        } else {
            equal_to(s0, x)
        });
        if override_cmp(t, x) == Ordering::Equal {
            assert forall|k: int| 0 <= k < tt.skip(p).len() implies override_cmp(
                #[trigger] tt.skip(p)[k],
                x,
            ) != Ordering::Equal by {
                assert(tt.skip(p)[k] == tt[p + k]);
                assert(override_cmp(tt[p + k], t) == Ordering::Greater);
                if override_cmp(tt[p + k], x) == Ordering::Equal {
                    lemma_equal_key_trans(tt[p + k], t, x);
                }
            }
            lemma_equal_to_none(tt.skip(p), x);
            assert(equal_to(stable_sort(s), x) =~= equal_to(s, x));
        } else {
            assert(equal_to(stable_sort(s), x) =~= equal_to(s, x));
        }
    }
}

} // verus!
