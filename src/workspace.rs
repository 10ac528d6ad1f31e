//! The resolver: every path that several packs hold is resolved by its
//! strategy, and renamed files take their own pack's references along.
use crate::asset::{compatible, is_rewrite, moves_view, same_kind, Asset, Warning, WarningView};
use crate::classify::{path_strategy, strategy, Strategy};
use crate::conflict::{all_compatible, fold_trace, folds_to, Conflict};
use crate::error::Error;
use crate::index::{
    lemma_padded_injective, lemma_renamed_is_padded, name_start, padded_path, renamed_path, Index,
};
use vstd::prelude::*;

verus! {

/// One pack: its files, each a path relative to the pack's root and its content.
#[derive(Debug, Clone)]
pub struct Project {
    pub files: Vec<(String, Asset)>,
}

/// The packs to merge, in the order in which they were found; a pack's
/// position is its project id.
#[derive(Debug, Clone)]
pub struct Workspace {
    pub projects: Vec<Project>,
}

/// A file of the merged pack: its path, the path its versions had in their
/// packs, its content, the warnings its merge gave, and the packs whose
/// versions it was made from, in order.
#[derive(Debug, Clone)]
pub struct Resolved {
    pub path: String,
    pub origin: String,
    pub asset: Asset,
    pub warnings: Vec<Warning>,
    pub sources: Vec<usize>,
}

/// The merged pack: one entry per output path.
#[derive(Debug, Clone)]
pub struct Timeline {
    pub entries: Vec<Resolved>,
}

/// The first path whose versions could not be merged, and why.
#[derive(Debug, Clone)]
pub struct ResolveError {
    pub path: String,
    pub error: Error,
}

pub open spec fn project_wf(p: Project) -> bool {
    &&& forall|a: int, b: int|
        0 <= a < b < p.files@.len() ==> (#[trigger] p.files@[a]).0@ != (#[trigger] p.files@[b]).0@
    &&& forall|a: int| 0 <= a < p.files@.len() ==> (#[trigger] p.files@[a]).1.wf()
}

pub open spec fn holds(p: Project, path: Seq<char>) -> bool {
    exists|k: int| 0 <= k < p.files@.len() && (#[trigger] p.files@[k]).0@ == path
}

/// The content of the file at `path` in the pack.
pub open spec fn asset_at(p: Project, path: Seq<char>) -> Asset {
    p.files@[choose|k: int| 0 <= k < p.files@.len() && (#[trigger] p.files@[k]).0@ == path].1
}

/// The ids of the packs that hold `path`, in order.
pub open spec fn holders(ps: Seq<Project>, path: Seq<char>) -> Seq<int>
    decreases ps.len(),
{
    if ps.len() == 0 {
        seq![]
    } else if holds(ps.last(), path) {
        holders(ps.drop_last(), path).push(ps.len() - 1)
    } else {
        holders(ps.drop_last(), path)
    }
}

/// `acc` followed by the paths of `files` that it does not hold yet.
pub open spec fn add_paths(acc: Seq<Seq<char>>, files: Seq<(String, Asset)>) -> Seq<Seq<char>>
    decreases files.len(),
{
    if files.len() == 0 {
        acc
    } else {
        let a = add_paths(acc, files.drop_last());
        if a.contains(files.last().0@) {
            a
        } else {
            a.push(files.last().0@)
        }
    }
}

/// Every path of the packs once, in the order in which it is first found.
pub open spec fn distinct_paths(ps: Seq<Project>) -> Seq<Seq<char>>
    decreases ps.len(),
{
    if ps.len() == 0 {
        seq![]
    } else {
        add_paths(distinct_paths(ps.drop_last()), ps.last().files@)
    }
}

/// The length of the longest path of `dp`.
pub open spec fn max_len(dp: Seq<Seq<char>>) -> nat
    decreases dp.len(),
{
    if dp.len() == 0 {
        0
    } else {
        let a = max_len(dp.drop_last());
        if dp.last().len() > a {
            dp.last().len()
        } else {
            a
        }
    }
}

/// Where pack `j`'s version of `path` moves to: the pack's own folder, or,
/// where some pack already holds that path, the folder padded past the
/// length of every path the packs hold.
pub open spec fn new_path(ps: Seq<Project>, path: Seq<char>, j: int) -> Seq<char> {
    let dp = distinct_paths(ps);
    if dp.contains(renamed_path(path, j as nat)) {
        padded_path(path, j as nat, max_len(dp))
    } else {
        renamed_path(path, j as nat)
    }
}

/// Pack `i`'s file at `path` collides with an earlier pack's and is renamed.
pub open spec fn is_renamed(ps: Seq<Project>, i: int, path: Seq<char>) -> bool {
    let hs = holders(ps, path);
    hs.len() > 1 && path_strategy(path) == Strategy::Rename && hs[0] != i
}

/// The files among `files` of pack `i` that are renamed, each with its new path.
pub open spec fn moves_from(ps: Seq<Project>, i: int, files: Seq<(String, Asset)>) -> Seq<
    (Seq<char>, Seq<char>),
>
    decreases files.len(),
{
    if files.len() == 0 {
        seq![]
    } else {
        let rest = moves_from(ps, i, files.drop_last());
        let p = files.last().0@;
        if is_renamed(ps, i, p) {
            rest.push((p, new_path(ps, p, i)))
        } else {
            rest
        }
    }
}

pub open spec fn moves(ps: Seq<Project>, i: int) -> Seq<(Seq<char>, Seq<char>)> {
    moves_from(ps, i, ps[i].files@)
}

/// An output file: its path, the path it comes from, and the packs whose
/// versions of that path, in order, are merged into it.
pub type Slot = (Seq<char>, Seq<char>, Seq<int>);

/// The output files that the versions of `path` become.
pub open spec fn slots_for(ps: Seq<Project>, path: Seq<char>) -> Seq<Slot> {
    let hs = holders(ps, path);
    if hs.len() <= 1 {
        seq![(path, path, hs)]
    } else {
        match path_strategy(path) {
            Strategy::Merge => seq![(path, path, hs)],
            Strategy::Replace => seq![(path, path, seq![hs.last()])],
            Strategy::Rename => seq![(path, path, seq![hs[0]])] + hs.skip(1).map_values(
                |j: int| (new_path(ps, path, j), path, seq![j]),
            ),
        }
    }
}

/// The output files of the paths `dp`, in order.
pub open spec fn plan(ps: Seq<Project>, dp: Seq<Seq<char>>) -> Seq<Slot>
    decreases dp.len(),
{
    if dp.len() == 0 {
        seq![]
    } else {
        plan(ps, dp.drop_last()) + slots_for(ps, dp.last())
    }
}

/// No two output files share a path.
pub open spec fn paths_distinct(pl: Seq<Slot>) -> bool {
    forall|i: int, j: int| 0 <= i < j < pl.len() ==> (#[trigger] pl[i]).0 != (#[trigger] pl[j]).0
}

/// The versions of `path` that a merge would combine cannot be merged.
pub open spec fn fails(ps: Seq<Project>, path: Seq<char>) -> bool {
    let hs = holders(ps, path);
    &&& hs.len() > 1
    &&& path_strategy(path) == Strategy::Merge
    &&& !all_compatible(hs.map_values(|j: int| asset_at(ps[j], path)))
}

/// `e` is the output file `slot`: its content is what merging the versions
/// of the slot's packs gives, each with its references moved along with its
/// own pack's renamed files.
pub open spec fn entry_matches(ps: Seq<Project>, e: Resolved, slot: Slot) -> bool {
    &&& e.path@ == slot.0
    &&& e.origin@ == slot.1
    &&& e.sources@.len() == slot.2.len()
    &&& forall|k: int| 0 <= k < slot.2.len() ==> #[trigger] e.sources@[k] as int == slot.2[k]
    &&& exists|rs: Seq<Asset>|
        #![trigger folds_to(rs, e.asset, warning_views(e.warnings@))]
        rs.len() == slot.2.len() && (forall|k: int|
            0 <= k < rs.len() ==> is_rewrite(
                #[trigger] rs[k],
                asset_at(ps[slot.2[k]], slot.1),
                moves(ps, slot.2[k]),
            )) && folds_to(rs, e.asset, warning_views(e.warnings@))
}

pub open spec fn warning_views(w: Seq<Warning>) -> Seq<WarningView> {
    w.map_values(|x: Warning| x@)
}

/// The position of `path` in `files`, if it is there.
fn find_path(files: &Vec<(String, Asset)>, path: &String) -> (r: Option<usize>)
    ensures
        match r {
            Some(k) => k < files@.len() && files@[k as int].0@ == path@,
            None => forall|k: int| 0 <= k < files@.len() ==> (#[trigger] files@[k]).0@ != path@,
        },
{
    let mut k: usize = 0;
    while k < files.len()
        invariant
            k <= files@.len(),
            forall|q: int| 0 <= q < k ==> (#[trigger] files@[q]).0@ != path@,
        decreases files@.len() - k,
    {
        if files[k].0 == *path {
            return Some(k);
        }
        k = k + 1;
    }
    None
}

proof fn lemma_holders_take(ps: Seq<Project>, path: Seq<char>, j: int)
    requires
        0 <= j < ps.len(),
    ensures
        holders(ps.take(j + 1), path) == if holds(ps[j], path) {
            holders(ps.take(j), path).push(j)
        } else {
            holders(ps.take(j), path)
        },
{
    assert(ps.take(j + 1).drop_last() =~= ps.take(j));
}

proof fn lemma_holders_bounds(ps: Seq<Project>, path: Seq<char>)
    ensures
        forall|k: int| 0 <= k < holders(ps, path).len() ==> 0 <= #[trigger] holders(ps, path)[k] < ps.len()
            && holds(ps[holders(ps, path)[k]], path),
        forall|a: int, b: int|
            0 <= a < b < holders(ps, path).len() ==> #[trigger] holders(ps, path)[a] < #[trigger] holders(
                ps,
                path,
            )[b],
    decreases ps.len(),
{
    if ps.len() > 0 {
        lemma_holders_bounds(ps.drop_last(), path);
        let h0 = holders(ps.drop_last(), path);
        assert forall|k: int| 0 <= k < h0.len() implies holds(ps[h0[k]], path) by {
            assert(ps.drop_last()[h0[k]] == ps[h0[k]]);
        }
    }
}

/// The packs that hold `path`, in order, and where each holds it.
fn holders_of(ps: &Vec<Project>, path: &String) -> (r: (Vec<usize>, Vec<usize>))
    ensures
        r.0@.len() == holders(ps@, path@).len(),
        r.1@.len() == r.0@.len(),
        forall|k: int| 0 <= k < r.0@.len() ==> #[trigger] r.0@[k] as int == holders(ps@, path@)[k],
        forall|k: int|
            0 <= k < r.0@.len() ==> #[trigger] r.0@[k] < ps@.len() && r.1@[k] < ps@[r.0@[k] as int].files@.len()
                && ps@[r.0@[k] as int].files@[r.1@[k] as int].0@ == path@,
{
    let mut hs: Vec<usize> = Vec::new();
    let mut at: Vec<usize> = Vec::new();
    let mut j: usize = 0;
    while j < ps.len()
        invariant
            j <= ps@.len(),
            hs@.len() == holders(ps@.take(j as int), path@).len(),
            at@.len() == hs@.len(),
            forall|k: int| 0 <= k < hs@.len() ==> #[trigger] hs@[k] as int == holders(
                ps@.take(j as int),
                path@,
            )[k],
            forall|k: int|
                0 <= k < hs@.len() ==> #[trigger] hs@[k] < ps@.len() && at@[k] < ps@[hs@[k] as int].files@.len()
                    && ps@[hs@[k] as int].files@[at@[k] as int].0@ == path@,
        decreases ps@.len() - j,
    {
        proof {
            lemma_holders_take(ps@, path@, j as int);
        }
        match find_path(&ps[j].files, path) {
            Some(k) => {
                hs.push(j);
                at.push(k);
            },
            None => {
                assert(!holds(ps@[j as int], path@));
            },
        }
        j = j + 1;
    }
    assert(ps@.take(j as int) =~= ps@);
    (hs, at)
}

proof fn lemma_add_paths(acc: Seq<Seq<char>>, files: Seq<(String, Asset)>)
    requires
        acc.no_duplicates(),
    ensures
        add_paths(acc, files).no_duplicates(),
        forall|x: Seq<char>|
            #[trigger] add_paths(acc, files).contains(x) <==> (acc.contains(x) || exists|k: int|
                0 <= k < files.len() && (#[trigger] files[k]).0@ == x),
    decreases files.len(),
{
    if files.len() > 0 {
        let f0 = files.drop_last();
        lemma_add_paths(acc, f0);
        let a = add_paths(acc, f0);
        let last = files.last().0@;
        let r = add_paths(acc, files);
        if !a.contains(last) {
            assert(r == a.push(last));
            assert forall|i: int, j: int| 0 <= i < j < r.len() implies r[i] != r[j] by {
                if j == a.len() {
                    assert(r[i] == a[i]);
                    assert(r[j] == last);
                }
            }
        }
        assert forall|x: Seq<char>| #[trigger] r.contains(x) implies (acc.contains(x) || exists|k: int|
            0 <= k < files.len() && (#[trigger] files[k]).0@ == x) by {
            if a.contains(x) {
                if !acc.contains(x) {
                    let k = choose|k: int| 0 <= k < f0.len() && (#[trigger] f0[k]).0@ == x;
                    assert(files[k] == f0[k]);
                }
            } else {
                let i = choose|i: int| 0 <= i < r.len() && r[i] == x;
                assert(x == last);
                assert(files[files.len() - 1].0@ == x);
            }
        }
        assert forall|x: Seq<char>| (acc.contains(x) || exists|k: int|
            0 <= k < files.len() && (#[trigger] files[k]).0@ == x) implies #[trigger] r.contains(x) by {
            if acc.contains(x) {
                assert(a.contains(x));
            } else {
                let k = choose|k: int| 0 <= k < files.len() && (#[trigger] files[k]).0@ == x;
                if k < files.len() - 1 {
                    assert(f0[k] == files[k]);
                    assert(a.contains(x));
                } else {
                    assert(x == last);
                }
            }
            if a.contains(x) {
                let i = choose|i: int| 0 <= i < a.len() && a[i] == x;
                assert(r[i] == x);
            } else {
                assert(x == last);
                assert(r[r.len() - 1] == x);
            }
        }
    }
}

proof fn lemma_distinct_paths(ps: Seq<Project>)
    ensures
        distinct_paths(ps).no_duplicates(),
        forall|x: Seq<char>|
            #[trigger] distinct_paths(ps).contains(x) ==> exists|j: int|
                0 <= j < ps.len() && holds(#[trigger] ps[j], x),
    decreases ps.len(),
{
    if ps.len() > 0 {
        let p0 = ps.drop_last();
        lemma_distinct_paths(p0);
        lemma_add_paths(distinct_paths(p0), ps.last().files@);
        assert forall|x: Seq<char>| #[trigger] distinct_paths(ps).contains(x) implies exists|j: int|
            0 <= j < ps.len() && holds(#[trigger] ps[j], x) by {
            if distinct_paths(p0).contains(x) {
                let j = choose|j: int| 0 <= j < p0.len() && holds(#[trigger] p0[j], x);
                assert(ps[j] == p0[j]);
            } else {
                assert(holds(ps[ps.len() - 1], x));
            }
        }
    }
}

proof fn lemma_holders_nonempty(ps: Seq<Project>, path: Seq<char>, j: int)
    requires
        0 <= j < ps.len(),
        holds(ps[j], path),
    ensures
        holders(ps, path).len() > 0,
    decreases ps.len(),
{
    if j < ps.len() - 1 {
        assert(ps.drop_last()[j] == ps[j]);
        lemma_holders_nonempty(ps.drop_last(), path, j);
    }
}

/// Every path of the packs once, in the order in which it is first found.
fn distinct_paths_of(ps: &Vec<Project>) -> (r: Vec<String>)
    ensures
        r@.len() == distinct_paths(ps@).len(),
        forall|k: int| 0 <= k < r@.len() ==> (#[trigger] r@[k])@ == distinct_paths(ps@)[k],
{
    let mut out: Vec<String> = Vec::new();
    let mut i: usize = 0;
    while i < ps.len()
        invariant
            i <= ps@.len(),
            out@.len() == distinct_paths(ps@.take(i as int)).len(),
            forall|k: int| 0 <= k < out@.len() ==> (#[trigger] out@[k])@ == distinct_paths(
                ps@.take(i as int),
            )[k],
        decreases ps@.len() - i,
    {
        let files = &ps[i].files;
        let ghost base = distinct_paths(ps@.take(i as int));
        let mut j: usize = 0;
        while j < files.len()
            invariant
                j <= files@.len(),
                i < ps@.len(),
                files@ == ps@[i as int].files@,
                out@.len() == add_paths(base, files@.take(j as int)).len(),
                forall|k: int| 0 <= k < out@.len() ==> (#[trigger] out@[k])@ == add_paths(
                    base,
                    files@.take(j as int),
                )[k],
            decreases files@.len() - j,
        {
            let ghost a = add_paths(base, files@.take(j as int));
            assert(files@.take(j + 1).drop_last() =~= files@.take(j as int));
            let path = &files[j].0;
            let mut k: usize = 0;
            let mut seen = false;
            while k < out.len() && !seen
                invariant
                    k <= out@.len(),
                    i < ps@.len(),
                    out@.len() == a.len(),
                    forall|q: int| 0 <= q < out@.len() ==> (#[trigger] out@[q])@ == a[q],
                    seen ==> a.contains(path@),
                    !seen ==> forall|q: int| 0 <= q < k ==> (#[trigger] out@[q])@ != path@,
                decreases out@.len() - k + (if seen { 0int } else { 1int }),
            {
                if out[k] == *path {
                    seen = true;
                    assert(a[k as int] == path@);
                } else {
                    k = k + 1;
                }
            }
            if !seen {
                assert(!a.contains(path@)) by {
                    if a.contains(path@) {
                        let q = choose|q: int| 0 <= q < a.len() && a[q] == path@;
                        assert(out@[q]@ == a[q]);
                    }
                }
                out.push(path.clone());
            }
            j = j + 1;
        }
        proof {
            assert(files@.take(j as int) =~= files@);
            assert(ps@.take(i + 1).drop_last() =~= ps@.take(i as int));
            assert(ps@.take(i + 1).last() == ps@[i as int]);
        }
        i = i + 1;
    }
    assert(ps@.take(i as int) =~= ps@);
    out
}

proof fn lemma_max_len(dp: Seq<Seq<char>>)
    ensures
        forall|k: int| 0 <= k < dp.len() ==> (#[trigger] dp[k]).len() <= max_len(dp),
    decreases dp.len(),
{
    if dp.len() > 0 {
        lemma_max_len(dp.drop_last());
        assert forall|k: int| 0 <= k < dp.len() implies (#[trigger] dp[k]).len() <= max_len(dp) by {
            if k < dp.len() - 1 {
                assert(dp.drop_last()[k] == dp[k]);
            }
        }
    }
}

proof fn lemma_name_start(p: Seq<char>)
    ensures
        0 <= name_start(p) <= p.len(),
    decreases p.len(),
{
    if p.len() > 0 && p.last() != '/' {
        lemma_name_start(p.drop_last());
    }
}

/// The path a renamed file moves to is none of the paths the packs hold.
pub proof fn lemma_new_path_fresh(ps: Seq<Project>, path: Seq<char>, j: int)
    requires
        0 <= j,
    ensures
        !distinct_paths(ps).contains(new_path(ps, path, j)),
{
    let dp = distinct_paths(ps);
    if dp.contains(renamed_path(path, j as nat)) {
        lemma_max_len(dp);
        lemma_name_start(path);
        reveal_strlit("pack_");
        let q = padded_path(path, j as nat, max_len(dp));
        assert(q.len() > max_len(dp));
        if dp.contains(q) {
            let k = choose|k: int| 0 <= k < dp.len() && dp[k] == q;
            assert(dp[k].len() <= max_len(dp));
        }
    }
}

/// The longest length among the paths.
fn max_len_of(dp: &Vec<String>, Ghost(dps): Ghost<Seq<Seq<char>>>) -> (r: usize)
    requires
        dp@.len() == dps.len(),
        forall|k: int| 0 <= k < dp@.len() ==> (#[trigger] dp@[k])@ == dps[k],
    ensures
        r == max_len(dps),
{
    let mut mx: usize = 0;
    let mut i: usize = 0;
    assert(dps.take(0) =~= Seq::<Seq<char>>::empty());
    while i < dp.len()
        invariant
            i <= dp@.len(),
            dp@.len() == dps.len(),
            forall|k: int| 0 <= k < dp@.len() ==> (#[trigger] dp@[k])@ == dps[k],
            mx == max_len(dps.take(i as int)),
        decreases dp@.len() - i,
    {
        let l = dp[i].as_str().unicode_len();
        assert(dps.take(i + 1).drop_last() =~= dps.take(i as int));
        assert(dps.take(i + 1).last() == dps[i as int]);
        if l > mx {
            mx = l;
        }
        i = i + 1;
    }
    assert(dps.take(i as int) =~= dps);
    mx
}

/// Whether `x` is among the paths.
fn contains_path(dp: &Vec<String>, x: &String, Ghost(dps): Ghost<Seq<Seq<char>>>) -> (r: bool)
    requires
        dp@.len() == dps.len(),
        forall|k: int| 0 <= k < dp@.len() ==> (#[trigger] dp@[k])@ == dps[k],
    ensures
        r == dps.contains(x@),
{
    let mut i: usize = 0;
    while i < dp.len()
        invariant
            i <= dp@.len(),
            dp@.len() == dps.len(),
            forall|k: int| 0 <= k < dp@.len() ==> (#[trigger] dp@[k])@ == dps[k],
            forall|k: int| 0 <= k < i ==> dps[k] != x@,
        decreases dp@.len() - i,
    {
        if dp[i] == *x {
            assert(dps[i as int] == x@);
            return true;
        }
        i = i + 1;
    }
    false
}

/// Where pack `j`'s version of `path` moves to.
fn new_path_of(
    path: &String,
    j: usize,
    dp: &Vec<String>,
    mx: usize,
    Ghost(ps): Ghost<Seq<Project>>,
) -> (r: String)
    requires
        dp@.len() == distinct_paths(ps).len(),
        forall|k: int| 0 <= k < dp@.len() ==> (#[trigger] dp@[k])@ == distinct_paths(ps)[k],
        mx == max_len(distinct_paths(ps)),
    ensures
        r@ == new_path(ps, path@, j as int),
{
    let slot = Index::new(j, path.as_str());
    let base = slot.rename().path;
    if contains_path(dp, &base, Ghost(distinct_paths(ps))) {
        slot.rename_padded(mx).path
    } else {
        base
    }
}

/// The renamed files of pack `i`, each with the path it moves to.
fn moves_of(ps: &Vec<Project>, i: usize, dp: &Vec<String>, mx: usize) -> (r: Vec<(String, String)>)
    requires
        i < ps@.len(),
        dp@.len() == distinct_paths(ps@).len(),
        forall|k: int| 0 <= k < dp@.len() ==> (#[trigger] dp@[k])@ == distinct_paths(ps@)[k],
        mx == max_len(distinct_paths(ps@)),
    ensures
        moves_view(r@) == moves(ps@, i as int),
{
    let files = &ps[i].files;
    let mut out: Vec<(String, String)> = Vec::new();
    let mut j: usize = 0;
    while j < files.len()
        invariant
            j <= files@.len(),
            i < ps@.len(),
            files@ == ps@[i as int].files@,
            moves_view(out@) == moves_from(ps@, i as int, files@.take(j as int)),
            dp@.len() == distinct_paths(ps@).len(),
            forall|k: int| 0 <= k < dp@.len() ==> (#[trigger] dp@[k])@ == distinct_paths(ps@)[k],
            mx == max_len(distinct_paths(ps@)),
        decreases files@.len() - j,
    {
        assert(files@.take(j + 1).drop_last() =~= files@.take(j as int));
        let path = &files[j].0;
        let (hs, _at) = holders_of(ps, path);
        let st = strategy(path.as_str());
        let ghost prev = out@;
        if hs.len() > 1 && st == Strategy::Rename && hs[0] != i {
            let moved = new_path_of(path, i, dp, mx, Ghost(ps@));
            out.push((path.clone(), moved));
            assert(moves_view(out@) =~= moves_view(prev).push((path@, new_path(ps@, path@, i as int))));
        }
        j = j + 1;
    }
    assert(files@.take(j as int) =~= files@);
    out
}

/// The output files of one path, by position among its holders' versions.
pub open spec fn local_slots(ps: Seq<Project>, path: Seq<char>, hs: Seq<int>, st: Strategy) -> Seq<
    (Seq<char>, Seq<int>),
> {
    let n = hs.len() as int;
    if n <= 1 {
        seq![(path, Seq::new(n as nat, |k: int| k))]
    } else {
        match st {
            Strategy::Merge => seq![(path, Seq::new(n as nat, |k: int| k))],
            Strategy::Replace => seq![(path, seq![n - 1])],
            Strategy::Rename => seq![(path, seq![0int])] + Seq::new(
                (n - 1) as nat,
                |k: int| (new_path(ps, path, hs[k + 1]), seq![k + 1]),
            ),
        }
    }
}

/// `e` is the output file that merging the versions at `slot.1` of `vs`, those
/// of the packs `hs`, gives.
pub open spec fn local_matches(
    e: Resolved,
    slot: (Seq<char>, Seq<int>),
    vs: Seq<Asset>,
    hs: Seq<int>,
) -> bool {
    &&& e.sources@.len() == slot.1.len()
    &&& forall|k: int| 0 <= k < slot.1.len() ==> #[trigger] e.sources@[k] as int == hs[slot.1[k]]
    &&& e.path@ == slot.0 && folds_to(
        slot.1.map_values(|k: int| vs[k]),
        e.asset,
        warning_views(e.warnings@),
    )
}

proof fn lemma_fold_one(a: Asset)
    ensures
        folds_to(seq![a], a, Seq::<WarningView>::empty()),
{
    let ms = seq![a];
    let cw = seq![Seq::<WarningView>::empty()];
    assert(fold_trace(seq![a], ms, cw));
}

/// Resolves the versions `vs` of `path`, those of the packs `hs` in order.
fn resolve_one(
    path: &String,
    hs: &Vec<usize>,
    vs: Vec<Asset>,
    st: Strategy,
    dp: &Vec<String>,
    mx: usize,
    Ghost(ps): Ghost<Seq<Project>>,
) -> (r: Result<
    Vec<Resolved>,
    Error,
>)
    requires
        vs@.len() == hs@.len(),
        hs@.len() >= 1,
        dp@.len() == distinct_paths(ps).len(),
        forall|k: int| 0 <= k < dp@.len() ==> (#[trigger] dp@[k])@ == distinct_paths(ps)[k],
        mx == max_len(distinct_paths(ps)),
        forall|k: int| 0 <= k < vs@.len() ==> (#[trigger] vs@[k]).wf(),
    ensures
        ({
            let hi = Seq::new(hs@.len(), |k: int| hs@[k] as int);
            let sl = local_slots(ps, path@, hi, st);
            match r {
                Ok(es) => (hs@.len() > 1 && st == Strategy::Merge ==> all_compatible(vs@))
                    && es@.len() == sl.len() && (forall|t: int|
                    0 <= t < es@.len() ==> local_matches(#[trigger] es@[t], sl[t], vs@, hi)) && (
                forall|t: int| 0 <= t < es@.len() ==> (#[trigger] es@[t]).origin@ == path@),
                Err(e) => hs@.len() > 1 && st == Strategy::Merge && !all_compatible(vs@) && e
                    == Error::IncompatibleFile,
            }
        }),
{
    let ghost hi = Seq::new(hs@.len(), |k: int| hs@[k] as int);
    let ghost sl = local_slots(ps, path@, hi, st);
    let ghost v0 = vs@;
    let n = vs.len();
    let mut out: Vec<Resolved> = Vec::new();
    if n == 1 || st == Strategy::Merge {
        let mut sources: Vec<usize> = Vec::new();
        let mut k: usize = 0;
        while k < n
            invariant
                k <= n,
                n == hs@.len(),
                sources@.len() == k,
                forall|q: int| 0 <= q < k ==> #[trigger] sources@[q] == hs@[q],
            decreases n - k,
        {
            sources.push(hs[k]);
            k = k + 1;
        }
        let c = Conflict::new(vs);
        match c.solve() {
            Ok((asset, warnings)) => {
                let e = Resolved { path: path.clone(), origin: path.clone(), asset, warnings, sources };
                proof {
                    assert(sl[0].1.map_values(|k: int| v0[k]) =~= v0);
                }
                out.push(e);
                Ok(out)
            },
            Err(e) => Err(e),
        }
    } else if st == Strategy::Replace {
        let mut vs = vs;
        let a = vs.remove(n - 1);
        let e = Resolved {
            path: path.clone(),
            origin: path.clone(),
            asset: a,
            warnings: Vec::new(),
            sources: vec![hs[n - 1]],
        };
        proof {
            assert(sl[0].1.map_values(|k: int| v0[k]) =~= seq![a]);
            lemma_fold_one(a);
            assert(warning_views(e.warnings@) =~= Seq::<WarningView>::empty());
        }
        out.push(e);
        Ok(out)
    } else {
        let mut rest = vs;
        let first = rest.remove(0);
        let e = Resolved {
            path: path.clone(),
            origin: path.clone(),
            asset: first,
            warnings: Vec::new(),
            sources: vec![hs[0]],
        };
        proof {
            assert(sl[0].1.map_values(|k: int| v0[k]) =~= seq![first]);
            lemma_fold_one(first);
            assert(warning_views(e.warnings@) =~= Seq::<WarningView>::empty());
        }
        out.push(e);
        let mut k: usize = 1;
        while k < n
            invariant
                1 <= k <= n,
                n == v0.len(),
                n == hs@.len(),
                n > 1,
                st == Strategy::Rename,
                dp@.len() == distinct_paths(ps).len(),
                forall|k: int| 0 <= k < dp@.len() ==> (#[trigger] dp@[k])@ == distinct_paths(ps)[k],
                mx == max_len(distinct_paths(ps)),
                hi == Seq::new(hs@.len(), |k: int| hs@[k] as int),
                sl == local_slots(ps, path@, hi, st),
                rest@ == v0.skip(k as int),
                out@.len() == k,
                forall|t: int| 0 <= t < out@.len() ==> local_matches(#[trigger] out@[t], sl[t], v0, hi),
                forall|t: int| 0 <= t < out@.len() ==> (#[trigger] out@[t]).origin@ == path@,
            decreases n - k,
        {
            let a = rest.remove(0);
            assert(a == v0[k as int]);
            let moved = new_path_of(path, hs[k], dp, mx, Ghost(ps));
            let e = Resolved {
                path: moved,
                origin: path.clone(),
                asset: a,
                warnings: Vec::new(),
                sources: vec![hs[k]],
            };
            proof {
                assert(sl[k as int] == (new_path(ps, path@, hs@[k as int] as int), seq![k as int]));
                assert(sl[k as int].1.map_values(|q: int| v0[q]) =~= seq![a]);
                lemma_fold_one(a);
                assert(warning_views(e.warnings@) =~= Seq::<WarningView>::empty());
            }
            out.push(e);
            k = k + 1;
            assert(rest@ =~= v0.skip(k as int));
        }
        Ok(out)
    }
}

proof fn lemma_same_shape_kind(a: Asset, b: Asset)
    requires
        crate::asset::same_shape(a, b),
    ensures
        same_kind(a, b),
        a is BlockState == b is BlockState,
{
}

/// A version of `path` in pack `j` with its references moved.
pub open spec fn rewritten_version(ps: Seq<Project>, j: int, path: Seq<char>, v: Asset) -> bool {
    is_rewrite(v, asset_at(ps[j], path), moves(ps, j)) && v.wf()
}

proof fn lemma_slot_bridge(
    ps: Seq<Project>,
    path: Seq<char>,
    hi: Seq<int>,
    st: Strategy,
    vs: Seq<Asset>,
    e: Resolved,
    t: int,
)
    requires
        hi == holders(ps, path),
        hi.len() >= 1,
        st == path_strategy(path),
        vs.len() == hi.len(),
        forall|k: int| 0 <= k < vs.len() ==> rewritten_version(ps, hi[k], path, #[trigger] vs[k]),
        0 <= t < local_slots(ps, path, hi, st).len(),
        local_matches(e, local_slots(ps, path, hi, st)[t], vs, hi),
        e.origin@ == path,
    ensures
        local_slots(ps, path, hi, st).len() == slots_for(ps, path).len(),
        entry_matches(ps, e, slots_for(ps, path)[t]),
{
    let ls = local_slots(ps, path, hi, st)[t];
    let gs = slots_for(ps, path)[t];
    let n = hi.len() as int;
    assert(local_slots(ps, path, hi, st).len() == slots_for(ps, path).len());
    assert(gs.0 == ls.0 && gs.1 == path && gs.2 =~= ls.1.map_values(|k: int| hi[k])) by {
        if n > 1 && st == Strategy::Rename && t > 0 {
            assert(hi.skip(1)[t - 1] == hi[t]);
        }
    }
    assert(forall|k: int| 0 <= k < ls.1.len() ==> 0 <= #[trigger] ls.1[k] < n) by {
        if n > 1 && st == Strategy::Rename && t > 0 {
        }
    }
    let rs = ls.1.map_values(|k: int| vs[k]);
    assert forall|k: int| 0 <= k < rs.len() implies is_rewrite(
        #[trigger] rs[k],
        asset_at(ps[gs.2[k]], gs.1),
        moves(ps, gs.2[k]),
    ) by {
        assert(rs[k] == vs[ls.1[k]]);
        assert(gs.2[k] == hi[ls.1[k]]);
        assert(rewritten_version(ps, hi[ls.1[k]], path, vs[ls.1[k]]));
    }
    assert(folds_to(rs, e.asset, warning_views(e.warnings@)));
}

proof fn lemma_plan_step(ps: Seq<Project>, dp: Seq<Seq<char>>, m: int)
    requires
        0 <= m < dp.len(),
    ensures
        plan(ps, dp.take(m + 1)) == plan(ps, dp.take(m)) + slots_for(ps, dp[m]),
{
    assert(dp.take(m + 1).drop_last() =~= dp.take(m));
}

/// No two entries of `v` share a key.
pub fn keys_distinct<V>(v: &Vec<(String, V)>) -> (r: bool)
    ensures
        r == forall|i: int, j: int|
            0 <= i < j < v@.len() ==> (#[trigger] v@[i]).0@ != (#[trigger] v@[j]).0@,
{
    let mut j: usize = 0;
    while j < v.len()
        invariant
            j <= v@.len(),
            forall|a: int, b: int| 0 <= a < b < j ==> (#[trigger] v@[a]).0@ != (#[trigger] v@[b]).0@,
        decreases v@.len() - j,
    {
        let mut i: usize = 0;
        while i < j
            invariant
                i <= j < v@.len(),
                forall|a: int| 0 <= a < i ==> (#[trigger] v@[a]).0@ != v@[j as int].0@,
            decreases j - i,
        {
            if v[i].0 == v[j].0 {
                return false;
            }
            i = i + 1;
        }
        j = j + 1;
    }
    true
}

impl Workspace {
    pub open spec fn wf(&self) -> bool {
        forall|j: int| 0 <= j < self.projects@.len() ==> project_wf(#[trigger] self.projects@[j])
    }

    /// Whether every pack holds each path once and every file is well formed.
    pub fn check_wf(&self) -> (r: bool)
        ensures
            r == self.wf(),
    {
        let mut j: usize = 0;
        while j < self.projects.len()
            invariant
                j <= self.projects@.len(),
                forall|q: int| 0 <= q < j ==> project_wf(#[trigger] self.projects@[q]),
            decreases self.projects@.len() - j,
        {
            let files = &self.projects[j].files;
            if !keys_distinct(files) {
                return false;
            }
            let mut k: usize = 0;
            while k < files.len()
                invariant
                    k <= files@.len(),
                    j < self.projects@.len(),
                    files@ == self.projects@[j as int].files@,
                    forall|q: int| 0 <= q < k ==> (#[trigger] files@[q]).1.wf(),
                decreases files@.len() - k,
            {
                if !files[k].1.check_wf() {
                    assert(!project_wf(self.projects@[j as int])) by {
                        assert(!(files@[k as int]).1.wf());
                    }
                    return false;
                }
                k = k + 1;
            }
            j = j + 1;
        }
        true
    }

    /// Resolves every path of the packs. A path that one pack holds goes out
    /// as it is; the versions of a path that several hold are merged, replaced
    /// by the last, or renamed apart, by the path's strategy. Every file first
    /// has its references moved along with its own pack's renamed files. The
    /// first path whose versions cannot be merged stops the whole run.
    #[verifier::rlimit(50)]
    pub fn resolve(self) -> (r: Result<Timeline, ResolveError>)
        requires
            self.wf(),
        ensures
            ({
                let ps = self.projects@;
                let dp = distinct_paths(ps);
                let pl = plan(ps, dp);
                match r {
                    Ok(t) => (forall|k: int| 0 <= k < dp.len() ==> !fails(ps, #[trigger] dp[k]))
                        && paths_distinct(pl) && t.entries@.len() == pl.len() && forall|i: int|
                        0 <= i < pl.len() ==> entry_matches(ps, #[trigger] t.entries@[i], pl[i]),
                    Err(e) => e.error == Error::IncompatibleFile && exists|k: int|
                        0 <= k < dp.len() && e.path@ == dp[k] && fails(ps, dp[k]) && forall|k2: int|
                            0 <= k2 < k ==> !fails(ps, #[trigger] dp[k2]),
                }
            }),
    {
        let ghost ps = self.projects@;
        let dp = distinct_paths_of(&self.projects);
        let ghost dps = distinct_paths(ps);
        proof {
            lemma_distinct_paths(ps);
            assert forall|k: int| 0 <= k < dp@.len() implies dps.contains(#[trigger] dp@[k]@) by {
                assert(dps[k] == dp@[k]@);
            }
        }
        let mx = max_len_of(&dp, Ghost(dps));
        let np = self.projects.len();
        let mut hold: Vec<(Vec<usize>, Vec<usize>)> = Vec::new();
        let mut m: usize = 0;
        while m < dp.len()
            invariant
                m <= dp@.len(),
                ps == self.projects@,
                hold@.len() == m,
                forall|q: int|
                    0 <= q < m ==> {
                        let h = #[trigger] hold@[q];
                        &&& h.0@.len() == holders(ps, dp@[q]@).len()
                        &&& h.1@.len() == h.0@.len()
                        &&& forall|k: int|
                            0 <= k < h.0@.len() ==> #[trigger] h.0@[k] as int == holders(ps, dp@[q]@)[k]
                        &&& forall|k: int|
                            0 <= k < h.0@.len() ==> #[trigger] h.0@[k] < ps.len() && h.1@[k]
                                < ps[h.0@[k] as int].files@.len() && ps[h.0@[k] as int].files@[h.1@[k] as int].0@
                                == dp@[q]@
                    },
            decreases dp@.len() - m,
        {
            hold.push(holders_of(&self.projects, &dp[m]));
            m = m + 1;
        }
        let mut mv: Vec<Vec<(String, String)>> = Vec::new();
        let mut j: usize = 0;
        while j < np
            invariant
                j <= np,
                np == ps.len(),
                ps == self.projects@,
                mv@.len() == j,
                forall|q: int| 0 <= q < j ==> moves_view((#[trigger] mv@[q])@) == moves(ps, q),
                dps == distinct_paths(ps),
                dp@.len() == dps.len(),
                forall|k: int| 0 <= k < dp@.len() ==> (#[trigger] dp@[k])@ == dps[k],
                mx == max_len(dps),
            decreases np - j,
        {
            mv.push(moves_of(&self.projects, j, &dp, mx));
            j = j + 1;
        }
        let mut cells: Vec<Vec<Option<Asset>>> = Vec::new();
        let mut projects = self.projects;
        let mut j: usize = 0;
        while j < np
            invariant
                j <= np,
                np == ps.len(),
                mv@.len() == np,
                ps == self.projects@,
                forall|q: int| 0 <= q < np ==> moves_view((#[trigger] mv@[q])@) == moves(ps, q),
                forall|q: int| 0 <= q < ps.len() ==> project_wf(#[trigger] ps[q]),
                projects@ == ps.skip(j as int),
                cells@.len() == j,
                forall|a: int, q: int|
                    0 <= a < j && 0 <= q < ps[a].files@.len() ==> {
                        &&& cells@[a]@.len() == ps[a].files@.len()
                        &&& (#[trigger] cells@[a]@[q]) is Some
                        &&& is_rewrite(cells@[a]@[q]->Some_0, ps[a].files@[q].1, moves(ps, a))
                        &&& cells@[a]@[q]->Some_0.wf()
                    },
                forall|a: int| 0 <= a < j ==> (#[trigger] cells@[a])@.len() == ps[a].files@.len(),
            decreases np - j,
        {
            let p = projects.remove(0);
            assert(p == ps[j as int]);
            let ghost fs = p.files@;
            let mut files = p.files;
            let mut row: Vec<Option<Asset>> = Vec::new();
            while files.len() > 0
                invariant
                    row@.len() <= fs.len(),
                    files@ == fs.skip(row@.len() as int),
                    j < np,
                    np == ps.len(),
                    mv@.len() == np,
                    fs == ps[j as int].files@,
                    project_wf(ps[j as int]),
                    moves_view(mv@[j as int]@) == moves(ps, j as int),
                    forall|q: int|
                        0 <= q < row@.len() ==> {
                            &&& (#[trigger] row@[q]) is Some
                            &&& is_rewrite(row@[q]->Some_0, fs[q].1, moves(ps, j as int))
                            &&& row@[q]->Some_0.wf()
                        },
                decreases files@.len(),
            {
                let ghost q = row@.len() as int;
                let (_path, a) = files.remove(0);
                assert(a == fs[q].1);
                assert(a.wf());
                let b = a.rename_references(&mv[j], j);
                row.push(Some(b));
                assert(files@ =~= fs.skip(row@.len() as int));
            }
            cells.push(row);
            j = j + 1;
            assert(projects@ =~= ps.skip(j as int));
        }
        let mut entries: Vec<Resolved> = Vec::new();
        let mut m: usize = 0;
        while m < dp.len()
            invariant
                0 <= m <= dp@.len(),
                ps == self.projects@,
                dp@.len() == dps.len(),
                forall|k: int| 0 <= k < dp@.len() ==> (#[trigger] dp@[k])@ == dps[k],
                dps == distinct_paths(ps),
                mx == max_len(dps),
                dps.no_duplicates(),
                forall|x: Seq<char>|
                    #[trigger] dps.contains(x) ==> exists|j: int| 0 <= j < ps.len() && holds(#[trigger] ps[j], x),
                hold@.len() == dp@.len(),
                forall|q: int|
                    0 <= q < dp@.len() ==> {
                        let h = #[trigger] hold@[q];
                        &&& h.0@.len() == holders(ps, dp@[q]@).len()
                        &&& h.1@.len() == h.0@.len()
                        &&& forall|k: int|
                            0 <= k < h.0@.len() ==> #[trigger] h.0@[k] as int == holders(ps, dp@[q]@)[k]
                        &&& forall|k: int|
                            0 <= k < h.0@.len() ==> #[trigger] h.0@[k] < ps.len() && h.1@[k]
                                < ps[h.0@[k] as int].files@.len() && ps[h.0@[k] as int].files@[h.1@[k] as int].0@
                                == dp@[q]@
                    },
                np == ps.len(),
                forall|q: int| 0 <= q < ps.len() ==> project_wf(#[trigger] ps[q]),
                cells@.len() == np,
                forall|a: int| 0 <= a < np ==> (#[trigger] cells@[a])@.len() == ps[a].files@.len(),
                forall|a: int, q: int|
                    0 <= a < np && 0 <= q < ps[a].files@.len() && !dps.take(m as int).contains(
                        ps[a].files@[q].0@,
                    ) ==> {
                        &&& (#[trigger] cells@[a]@[q]) is Some
                        &&& is_rewrite(cells@[a]@[q]->Some_0, ps[a].files@[q].1, moves(ps, a))
                        &&& cells@[a]@[q]->Some_0.wf()
                    },
                forall|k: int| 0 <= k < m ==> !fails(ps, #[trigger] dps[k]),
                entries@.len() == plan(ps, dps.take(m as int)).len(),
                forall|i: int|
                    0 <= i < entries@.len() ==> entry_matches(
                        ps,
                        #[trigger] entries@[i],
                        plan(ps, dps.take(m as int))[i],
                    ),
            decreases dp@.len() - m,
        {
            let path = &dp[m];
            let hs = &hold[m].0;
            let at = &hold[m].1;
            let ghost hi = holders(ps, path@);
            assert(path@ == dps[m as int]);
            proof {
                assert(dps.contains(dps[m as int]));
                let jj = choose|j: int| 0 <= j < ps.len() && holds(#[trigger] ps[j], dps[m as int]);
                lemma_holders_nonempty(ps, path@, jj);
                lemma_holders_bounds(ps, path@);
            }
            let mut vs: Vec<Asset> = Vec::new();
            let mut t: usize = 0;
            while t < hs.len()
                invariant
                    0 <= t <= hs@.len(),
                    hs@.len() == hi.len(),
                    at@.len() == hs@.len(),
                    hi == holders(ps, path@),
                    path@ == dps[m as int],
                    m < dps.len(),
                    dps.no_duplicates(),
                    forall|k: int| 0 <= k < hs@.len() ==> #[trigger] hs@[k] as int == hi[k],
                    forall|k: int|
                        0 <= k < hs@.len() ==> #[trigger] hs@[k] < ps.len() && at@[k]
                            < ps[hs@[k] as int].files@.len() && ps[hs@[k] as int].files@[at@[k] as int].0@
                            == path@,
                    forall|a: int, b: int| 0 <= a < b < hi.len() ==> #[trigger] hi[a] < #[trigger] hi[b],
                    np == ps.len(),
                    forall|q: int| 0 <= q < ps.len() ==> project_wf(#[trigger] ps[q]),
                    cells@.len() == np,
                    forall|a: int| 0 <= a < np ==> (#[trigger] cells@[a])@.len() == ps[a].files@.len(),
                    forall|a: int, q: int|
                        0 <= a < np && 0 <= q < ps[a].files@.len() && !dps.take(m as int).contains(
                            ps[a].files@[q].0@,
                        ) && (ps[a].files@[q].0@ != path@ || forall|k: int| 0 <= k < t ==> hs@[k] != a)
                            ==> {
                            &&& (#[trigger] cells@[a]@[q]) is Some
                            &&& is_rewrite(cells@[a]@[q]->Some_0, ps[a].files@[q].1, moves(ps, a))
                            &&& cells@[a]@[q]->Some_0.wf()
                        },
                    vs@.len() == t,
                    forall|k: int| 0 <= k < t ==> rewritten_version(ps, hi[k], path@, #[trigger] vs@[k]),
                decreases hs@.len() - t,
            {
                let a = hs[t];
                let q = at[t];
                proof {
                    assert(!dps.take(m as int).contains(path@)) by {
                        if dps.take(m as int).contains(path@) {
                            let i = choose|i: int| 0 <= i < m && dps.take(m as int)[i] == path@;
                            assert(dps[i] == dps[m as int]);
                        }
                    }
                    assert forall|k: int| 0 <= k < t implies hs@[k] != a by {
                        assert(hi[k] < hi[t as int]);
                    }
                    assert(cells@[a as int]@[q as int] is Some);
                }
                let mut row = cells.remove(a);
                let c = row.remove(q);
                row.insert(q, None);
                cells.insert(a, row);
                let v = c.unwrap();
                proof {
                    let f = ps[a as int].files@;
                    assert(asset_at(ps[a as int], path@) == f[q as int].1) by {
                        let k = choose|k: int| 0 <= k < f.len() && (#[trigger] f[k]).0@ == path@;
                        assert(f[k].0@ == f[q as int].0@);
                    }
                }
                vs.push(v);
                t = t + 1;
            }
            let st = strategy(path.as_str());
            let ghost hloc = Seq::new(hs@.len(), |k: int| hs@[k] as int);
            assert(hloc =~= hi);
            let ghost vs0 = vs@;
            match resolve_one(path, hs, vs, st, &dp, mx, Ghost(ps)) {
                Ok(es) => {
                    proof {
                        lemma_plan_step(ps, dps, m as int);
                        let sf = slots_for(ps, path@);
                        assert forall|t: int| 0 <= t < es@.len() implies entry_matches(
                            ps,
                            #[trigger] es@[t],
                            sf[t],
                        ) by {
                            lemma_slot_bridge(ps, path@, hi, st, vs0, es@[t], t);
                        }
                        lemma_slot_bridge(ps, path@, hi, st, vs0, es@[0], 0);
                        assert(!fails(ps, dps[m as int])) by {
                            if hi.len() > 1 && path_strategy(path@) == Strategy::Merge {
                                let orig = hi.map_values(|j: int| asset_at(ps[j], path@));
                                assert forall|k: int| 1 <= k < orig.len() implies compatible(
                                    orig[0],
                                    #[trigger] orig[k],
                                ) by {
                                    assert(rewritten_version(ps, hi[0], path@, vs0[0]));
                                    assert(rewritten_version(ps, hi[k], path@, vs0[k]));
                                    lemma_same_shape_kind(vs0[0], orig[0]);
                                    lemma_same_shape_kind(vs0[k], orig[k]);
                                    assert(compatible(vs0[0], vs0[k]));
                                }
                            }
                        }
                    }
                    let ghost before = entries@;
                    let ghost es0 = es@;
                    let mut es = es;
                    entries.append(&mut es);
                    proof {
                        let pl1 = plan(ps, dps.take(m + 1));
                        assert forall|i: int| 0 <= i < entries@.len() implies entry_matches(
                            ps,
                            #[trigger] entries@[i],
                            pl1[i],
                        ) by {
                            if i >= before.len() {
                                assert(entries@[i] == es0[i - before.len()]);
                            }
                        }
                        assert forall|a: int, q: int|
                            0 <= a < np && 0 <= q < ps[a].files@.len() && !dps.take(m + 1).contains(
                                ps[a].files@[q].0@,
                            ) implies (#[trigger] cells@[a]@[q]) is Some by {
                            if ps[a].files@[q].0@ == path@ {
                                assert(dps.take(m + 1)[m as int] == path@);
                            }
                            if dps.take(m as int).contains(ps[a].files@[q].0@) {
                                let i = choose|i: int| 0 <= i < m && dps.take(m as int)[i] == ps[a].files@[q].0@;
                                assert(dps.take(m + 1)[i] == ps[a].files@[q].0@);
                            }
                        }
                    }
                },
                Err(e) => {
                    proof {
                        assert(fails(ps, dps[m as int])) by {
                            let orig = hi.map_values(|j: int| asset_at(ps[j], path@));
                            let k = choose|k: int| 1 <= k < vs0.len() && !compatible(vs0[0], #[trigger] vs0[k]);
                            assert(rewritten_version(ps, hi[0], path@, vs0[0]));
                            assert(rewritten_version(ps, hi[k], path@, vs0[k]));
                            lemma_same_shape_kind(vs0[0], orig[0]);
                            lemma_same_shape_kind(vs0[k], orig[k]);
                            assert(!compatible(orig[0], orig[k]));
                        }
                    }
                    let failed = ResolveError { path: path.clone(), error: e };
                    assert(failed.path@ == dps[m as int]);
                    assert(0 <= m < dps.len() && failed.path@ == dps[m as int] && fails(ps, dps[m as int])
                        && forall|k2: int| 0 <= k2 < m ==> !fails(ps, #[trigger] dps[k2]));
                    return Err(failed);
                },
            }
            m = m + 1;
        }
        assert(dps.take(m as int) =~= dps);
        proof {
            lemma_plan_distinct(ps, dps.len() as int);
        }
        Ok(Timeline { entries })
    }
}

proof fn lemma_moves_from(ps: Seq<Project>, j: int, files: Seq<(String, Asset)>)
    ensures
        forall|k: int|
            0 <= k < moves_from(ps, j, files).len() ==> {
                let mv = #[trigger] moves_from(ps, j, files)[k];
                &&& exists|q: int| 0 <= q < files.len() && (#[trigger] files[q]).0@ == mv.0
                &&& is_renamed(ps, j, mv.0)
                &&& mv.1 == new_path(ps, mv.0, j)
            },
    decreases files.len(),
{
    if files.len() > 0 {
        let f0 = files.drop_last();
        lemma_moves_from(ps, j, f0);
        let r = moves_from(ps, j, files);
        let r0 = moves_from(ps, j, f0);
        assert forall|k: int| 0 <= k < r.len() implies exists|q: int|
            0 <= q < files.len() && (#[trigger] files[q]).0@ == (#[trigger] r[k]).0 by {
            if k < r0.len() {
                let q = choose|q: int| 0 <= q < f0.len() && (#[trigger] f0[q]).0@ == r0[k].0;
                assert(files[q] == f0[q]);
            } else {
                assert(files[files.len() - 1].0@ == r[k].0);
            }
        }
    }
}

/// A pack's references move only along with files that the pack itself holds
/// and that are renamed for it: the first pack to hold a path keeps it, and no
/// pack follows a move of another pack's file.
pub proof fn law_moves_are_own(ps: Seq<Project>, j: int)
    requires
        0 <= j < ps.len(),
    ensures
        forall|k: int|
            0 <= k < moves(ps, j).len() ==> {
                let mv = #[trigger] moves(ps, j)[k];
                &&& holds(ps[j], mv.0)
                &&& holders(ps, mv.0).len() > 1
                &&& holders(ps, mv.0)[0] != j
                &&& path_strategy(mv.0) == Strategy::Rename
                &&& mv.1 == new_path(ps, mv.0, j)
            },
{
    lemma_moves_from(ps, j, ps[j].files@);
}

proof fn lemma_held_in_distinct(ps: Seq<Project>, q: int, x: Seq<char>)
    requires
        0 <= q < ps.len(),
        holds(ps[q], x),
    ensures
        distinct_paths(ps).contains(x),
    decreases ps.len(),
{
    let p0 = ps.drop_last();
    lemma_distinct_paths(p0);
    lemma_add_paths(distinct_paths(p0), ps.last().files@);
    if q < ps.len() - 1 {
        assert(p0[q] == ps[q]);
        lemma_held_in_distinct(p0, q, x);
    } else {
        let k = choose|k: int| 0 <= k < ps[q].files@.len() && (#[trigger] ps[q].files@[k]).0@ == x;
        assert(ps.last().files@[k].0@ == x);
    }
}

/// The path a renamed file moves to is held by no pack.
pub proof fn law_new_path_unheld(ps: Seq<Project>, path: Seq<char>, j: int, q: int)
    requires
        0 <= j,
        0 <= q < ps.len(),
    ensures
        !holds(ps[q], new_path(ps, path, j)),
{
    lemma_new_path_fresh(ps, path, j);
    if holds(ps[q], new_path(ps, path, j)) {
        lemma_held_in_distinct(ps, q, new_path(ps, path, j));
    }
}

proof fn lemma_new_path_injective(ps: Seq<Project>, p1: Seq<char>, j1: int, p2: Seq<char>, j2: int)
    requires
        0 <= j1,
        0 <= j2,
        new_path(ps, p1, j1) == new_path(ps, p2, j2),
    ensures
        p1 == p2,
        j1 == j2,
{
    lemma_renamed_is_padded(p1, j1 as nat);
    lemma_renamed_is_padded(p2, j2 as nat);
    let dp = distinct_paths(ps);
    let m1: nat = if dp.contains(renamed_path(p1, j1 as nat)) { max_len(dp) } else { 0 };
    let m2: nat = if dp.contains(renamed_path(p2, j2 as nat)) { max_len(dp) } else { 0 };
    assert(new_path(ps, p1, j1) == padded_path(p1, j1 as nat, m1));
    assert(new_path(ps, p2, j2) == padded_path(p2, j2 as nat, m2));
    lemma_padded_injective(p1, j1 as nat, m1, p2, j2 as nat, m2);
}

/// An output slot keeps its pack's path, or moves to the pack's new path.
pub open spec fn slot_shape(ps: Seq<Project>, s: Slot) -> bool {
    s.0 == s.1 || (s.2.len() == 1 && 0 <= s.2[0] && s.0 == new_path(ps, s.1, s.2[0]))
}

proof fn lemma_plan_distinct(ps: Seq<Project>, m: int)
    requires
        0 <= m <= distinct_paths(ps).len(),
    ensures
        ({
            let dp = distinct_paths(ps);
            let pl = plan(ps, dp.take(m));
            &&& forall|i: int| 0 <= i < pl.len() ==> slot_shape(ps, #[trigger] pl[i])
            &&& forall|i: int| 0 <= i < pl.len() ==> dp.take(m).contains((#[trigger] pl[i]).1)
            &&& paths_distinct(pl)
        }),
    decreases m,
{
    let dp = distinct_paths(ps);
    lemma_distinct_paths(ps);
    if m == 0 {
        assert(dp.take(0) =~= Seq::<Seq<char>>::empty());
    } else {
        lemma_plan_distinct(ps, m - 1);
        lemma_plan_step(ps, dp, m - 1);
        let p = dp[m - 1];
        let old = plan(ps, dp.take(m - 1));
        let g = slots_for(ps, p);
        let pl = plan(ps, dp.take(m));
        let hs = holders(ps, p);
        lemma_holders_bounds(ps, p);
        assert(dp.take(m).contains(p)) by {
            assert(dp.take(m)[m - 1] == p);
        }
        assert(!dp.take(m - 1).contains(p)) by {
            if dp.take(m - 1).contains(p) {
                let i = choose|i: int| 0 <= i < m - 1 && #[trigger] dp.take(m - 1)[i] == p;
                assert(dp[i] == dp[m - 1]);
            }
        }
        assert(dp.contains(p)) by {
            assert(dp[m - 1] == p);
        }
        assert forall|i: int| 0 <= i < g.len() implies slot_shape(ps, #[trigger] g[i]) && g[i].1 == p
            && (g[i].0 == p || !dp.contains(g[i].0)) by {
            if hs.len() > 1 && path_strategy(p) == Strategy::Rename && i > 0 {
                assert(g[i] == (new_path(ps, p, hs[i]), p, seq![hs[i]]));
                lemma_new_path_fresh(ps, p, hs[i]);
            }
        }
        assert forall|i: int| 0 <= i < pl.len() implies slot_shape(ps, #[trigger] pl[i])
            && dp.take(m).contains(pl[i].1) by {
            if i < old.len() {
                assert(pl[i] == old[i]);
                let q = choose|q: int| 0 <= q < m - 1 && #[trigger] dp.take(m - 1)[q] == old[i].1;
                assert(dp.take(m)[q] == old[i].1);
            } else {
                assert(pl[i] == g[i - old.len()]);
            }
        }
        assert forall|a: int, b: int| 0 <= a < b < pl.len() implies (#[trigger] pl[a]).0 != (
        #[trigger] pl[b]).0 by {
            if b < old.len() {
                assert(pl[a] == old[a] && pl[b] == old[b]);
                assert(old[a].0 != old[b].0);
            } else if a >= old.len() {
                let ga = g[a - old.len()];
                let gb = g[b - old.len()];
                assert(pl[a] == ga && pl[b] == gb);
                if hs.len() > 1 && path_strategy(p) == Strategy::Rename {
                    let ia = a - old.len();
                    let ib = b - old.len();
                    if ia == 0 {
                        assert(ga == g[0]);
                        assert(gb == (new_path(ps, p, hs[ib]), p, seq![hs[ib]]));
                        lemma_new_path_fresh(ps, p, hs[ib]);
                    }
                    if ia > 0 && ga.0 == gb.0 {
                        assert(ga == (new_path(ps, p, hs[ia]), p, seq![hs[ia]]));
                        assert(gb == (new_path(ps, p, hs[ib]), p, seq![hs[ib]]));
                        lemma_new_path_injective(ps, p, hs[ia], p, hs[ib]);
                        assert(hs[ia] < hs[ib]);
                    }
                }
            } else {
                let o = old[a];
                let gb = g[b - old.len()];
                assert(pl[a] == o && pl[b] == gb);
                let q = choose|q: int| 0 <= q < m - 1 && #[trigger] dp.take(m - 1)[q] == o.1;
                assert(dp[q] == o.1);
                assert(dp.contains(o.1));
                assert(slot_shape(ps, o));
                assert(slot_shape(ps, gb) && gb.1 == p && (gb.0 == p || !dp.contains(gb.0)));
                if o.0 == gb.0 {
                    if o.0 == o.1 {
                        if gb.0 == p {
                            assert(dp.take(m - 1).contains(p));
                        } else {
                            assert(!dp.contains(gb.0));
                        }
                    } else {
                        lemma_new_path_fresh(ps, o.1, o.2[0]);
                        if gb.0 == p {
                        } else {
                            assert(gb.2.len() == 1 && gb.0 == new_path(ps, gb.1, gb.2[0]));
                            lemma_new_path_injective(ps, o.1, o.2[0], gb.1, gb.2[0]);
                            assert(dp.take(m - 1).contains(p));
                        }
                    }
                }
            }
        }
    }
}

} // verus!
