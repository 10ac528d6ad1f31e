//! Language tables: flat maps from text keys to the text shown in game.
use vstd::prelude::*;

verus! {

/// A language file: its path, for reports, and its entries with unique keys.
#[derive(Debug, Clone)]
pub struct Lang {
    pub path: String,
    pub data: Vec<(String, String)>,
}

/// A key that both operands of a merge define: its old and its new text.
#[derive(Debug, Clone)]
pub struct KeyConflict {
    pub key: String,
    pub from: String,
    pub to: String,
}

impl View for KeyConflict {
    type V = (Seq<char>, Seq<char>, Seq<char>);

    open spec fn view(&self) -> (Seq<char>, Seq<char>, Seq<char>) {
        (self.key@, self.from@, self.to@)
    }
}

pub open spec fn keys_unique(s: Seq<(String, String)>) -> bool {
    forall|i: int, j: int| 0 <= i < j < s.len() ==> s[i].0@ != s[j].0@
}

/// The table that a list of entries stands for.
pub open spec fn lang_map(s: Seq<(String, String)>) -> Map<Seq<char>, Seq<char>>
    decreases s.len(),
{
    if s.len() == 0 {
        Map::empty()
    } else {
        lang_map(s.drop_last()).insert(s.last().0@, s.last().1@)
    }
}

/// One record for each entry of `other`, in its order, whose key `m` holds.
pub open spec fn key_conflicts(m: Map<Seq<char>, Seq<char>>, other: Seq<(String, String)>) -> Seq<
    (Seq<char>, Seq<char>, Seq<char>),
>
    decreases other.len(),
{
    if other.len() == 0 {
        seq![]
    } else {
        let rest = key_conflicts(m, other.drop_last());
        let k = other.last().0@;
        if m.contains_key(k) {
            rest.push((k, m[k], other.last().1@))
        } else {
            rest
        }
    }
}

pub proof fn lemma_lang_map_contains(s: Seq<(String, String)>, k: Seq<char>)
    ensures
        lang_map(s).contains_key(k) <==> exists|i: int| 0 <= i < s.len() && #[trigger] s[i].0@ == k,
    decreases s.len(),
{
    if s.len() > 0 {
        lemma_lang_map_contains(s.drop_last(), k);
        if lang_map(s.drop_last()).contains_key(k) {
            let i = choose|i: int| 0 <= i < s.drop_last().len() && #[trigger] s.drop_last()[i].0@ == k;
            assert(s[i].0@ == k);
        }
        if exists|i: int| 0 <= i < s.len() && #[trigger] s[i].0@ == k {
            let i = choose|i: int| 0 <= i < s.len() && #[trigger] s[i].0@ == k;
            if i < s.len() - 1 {
                assert(s.drop_last()[i].0@ == k);
            }
        }
    }
}

pub proof fn lemma_lang_map_index(s: Seq<(String, String)>, i: int)
    requires
        keys_unique(s),
        0 <= i < s.len(),
    ensures
        lang_map(s).contains_key(s[i].0@),
        lang_map(s)[s[i].0@] == s[i].1@,
    decreases s.len(),
{
    if i < s.len() - 1 {
        lemma_lang_map_index(s.drop_last(), i);
    }
}

pub proof fn lemma_lang_map_update(s: Seq<(String, String)>, i: int, e: (String, String))
    requires
        keys_unique(s),
        0 <= i < s.len(),
        e.0@ == s[i].0@,
    ensures
        lang_map(s.update(i, e)) == lang_map(s).insert(e.0@, e.1@),
        keys_unique(s.update(i, e)),
    decreases s.len(),
{
    let t = s.update(i, e);
    if i == s.len() - 1 {
        assert(t.drop_last() =~= s.drop_last());
        lemma_lang_map_contains(s.drop_last(), e.0@);
        assert(lang_map(t) =~= lang_map(s).insert(e.0@, e.1@));
    } else {
        lemma_lang_map_update(s.drop_last(), i, e);
        assert(t.drop_last() =~= s.drop_last().update(i, e));
        assert(lang_map(t) =~= lang_map(s).insert(e.0@, e.1@));
    }
}

impl Lang {
    pub open spec fn wf(&self) -> bool {
        keys_unique(self.data@)
    }

    pub open spec fn table(&self) -> Map<Seq<char>, Seq<char>> {
        lang_map(self.data@)
    }

    /// Adds the entries of `other`, a later version of the same file: on a key
    /// that both hold, the text of `other` wins, and the clash is reported.
    pub fn merge(self, other: Lang) -> (r: (Lang, Vec<KeyConflict>))
        requires
            self.wf(),
            other.wf(),
        ensures
            r.0.wf(),
            r.0.path@ == self.path@,
            r.0.table() == self.table().union_prefer_right(other.table()),
            r.1@.map_values(|c: KeyConflict| c@) == key_conflicts(self.table(), other.data@),
    {
        let ghost m = self.table();
        let Lang { path, data } = self;
        let mut result = data;
        let mut conflicts: Vec<KeyConflict> = Vec::new();
        let mut j: usize = 0;
        while j < other.data.len()
            invariant
                j <= other.data@.len(),
                keys_unique(other.data@),
                keys_unique(result@),
                lang_map(result@) == m.union_prefer_right(lang_map(other.data@.take(j as int))),
                conflicts@.map_values(|c: KeyConflict| c@) == key_conflicts(m, other.data@.take(j as int)),
            decreases other.data@.len() - j,
        {
            let key = &other.data[j].0;
            let value = &other.data[j].1;
            let ghost before = other.data@.take(j as int);
            proof {
                assert(other.data@.take(j + 1).drop_last() =~= before);
                lemma_lang_map_contains(before, key@);
                if lang_map(before).contains_key(key@) {
                    let i = choose|i: int| 0 <= i < before.len() && #[trigger] before[i].0@ == key@;
                    assert(other.data@[i].0@ == other.data@[j as int].0@);
                }
            }
            let ghost old_result = result@;
            let mut i: usize = 0;
            let mut found = false;
            while i < result.len() && !found
                invariant
                    i <= result@.len(),
                    found ==> i < result@.len() && result@[i as int].0@ == key@,
                    !found ==> forall|k: int| 0 <= k < i ==> result@[k].0@ != key@,
                decreases result@.len() - i + (if found { 0int } else { 1int }),
            {
                if result[i].0 == *key {
                    found = true;
                } else {
                    i = i + 1;
                }
            }
            if found {
                proof {
                    lemma_lang_map_index(result@, i as int);
                    assert(m.contains_key(key@));
                }
                let c = KeyConflict { key: key.clone(), from: result[i].1.clone(), to: value.clone() };
                conflicts.push(c);
                let entry = (key.clone(), value.clone());
                proof {
                    lemma_lang_map_update(result@, i as int, entry);
                }
                result.set(i, entry);
            } else {
                proof {
                    lemma_lang_map_contains(result@, key@);
                    assert(!m.contains_key(key@));
                }
                result.push((key.clone(), value.clone()));
                assert(result@.drop_last() =~= old_result);
            }
            proof {
                let after = other.data@.take(j + 1);
                assert(after.drop_last() =~= before);
                assert(lang_map(after) == lang_map(before).insert(key@, value@));
                assert(lang_map(result@) == lang_map(old_result).insert(key@, value@));
                assert(conflicts@.map_values(|c: KeyConflict| c@) =~= key_conflicts(
                    m,
                    other.data@.take(j + 1),
                ));
                assert(lang_map(result@) =~= m.union_prefer_right(lang_map(other.data@.take(j + 1))));
            }
            j = j + 1;
        }
        assert(other.data@.take(j as int) =~= other.data@);
        (Lang { path, data: result }, conflicts)
    }
}

/// Merging two tables reports exactly one clash for each key that both define,
/// and each report holds that key's text in the first table and in the second.
pub proof fn law_one_conflict_per_shared_key(a: Lang, b: Lang)
    requires
        a.wf(),
        b.wf(),
    ensures
        ({
            let c = key_conflicts(a.table(), b.data@);
            &&& forall|i: int|
                0 <= i < c.len() ==> a.table().contains_key(#[trigger] c[i].0) && b.table().contains_key(
                    c[i].0,
                ) && c[i].1 == a.table()[c[i].0] && c[i].2 == b.table()[c[i].0]
            &&& forall|k: Seq<char>|
                a.table().contains_key(k) && b.table().contains_key(k) ==> exists|i: int|
                    0 <= i < c.len() && (#[trigger] c[i]).0 == k
            &&& forall|i: int, j: int| 0 <= i < j < c.len() ==> (#[trigger] c[i]).0 != (#[trigger] c[j]).0
        }),
{
    lemma_conflicts_exact(a.table(), b.data@);
}

proof fn lemma_conflicts_exact(m: Map<Seq<char>, Seq<char>>, o: Seq<(String, String)>)
    requires
        keys_unique(o),
    ensures
        ({
            let c = key_conflicts(m, o);
            &&& forall|i: int|
                0 <= i < c.len() ==> m.contains_key(#[trigger] c[i].0) && lang_map(o).contains_key(
                    c[i].0,
                ) && c[i].1 == m[c[i].0] && c[i].2 == lang_map(o)[c[i].0]
            &&& forall|k: Seq<char>|
                m.contains_key(k) && lang_map(o).contains_key(k) ==> exists|i: int|
                    0 <= i < c.len() && (#[trigger] c[i]).0 == k
            &&& forall|i: int, j: int| 0 <= i < j < c.len() ==> (#[trigger] c[i]).0 != (#[trigger] c[j]).0
        }),
    decreases o.len(),
{
    if o.len() > 0 {
        let p = o.drop_last();
        let k = o.last().0@;
        assert(keys_unique(p));
        lemma_conflicts_exact(m, p);
        lemma_lang_map_contains(p, k);
        assert(!lang_map(p).contains_key(k)) by {
            if lang_map(p).contains_key(k) {
                let i = choose|i: int| 0 <= i < p.len() && #[trigger] p[i].0@ == k;
                assert(o[i].0@ == o[o.len() - 1].0@);
            }
        }
        let c = key_conflicts(m, o);
        let cp = key_conflicts(m, p);
        assert forall|kk: Seq<char>| m.contains_key(kk) && lang_map(o).contains_key(kk) implies exists|i: int|
            0 <= i < c.len() && (#[trigger] c[i]).0 == kk by {
            if kk == k {
                assert(c[c.len() - 1].0 == kk);
            } else {
                let i = choose|i: int| 0 <= i < cp.len() && (#[trigger] cp[i]).0 == kk;
                assert(c[i].0 == kk);
            }
        }
    }
}

} // verus!
