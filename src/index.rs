//! File slots in the merge space: a project id and a pack-relative path.
use crate::namespace::{
    asset_path, path_reads_as, Kind, Namespace, NamespaceError,
};
use vstd::prelude::*;
use vstd::string::*;

verus! {

/// One physical file slot: the project that holds it and its path in that project.
#[derive(Debug, Clone)]
pub struct Index {
    pub pid: usize,
    pub path: String,
}

impl View for Index {
    type V = (nat, Seq<char>);

    open spec fn view(&self) -> (nat, Seq<char>) {
        (self.pid as nat, self.path@)
    }
}

impl PartialEq for Index {
    fn eq(&self, other: &Index) -> (r: bool) {
        self.pid == other.pid && self.path == other.path
    }
}

impl vstd::std_specs::cmp::PartialEqSpecImpl for Index {
    open spec fn obeys_eq_spec() -> bool {
        true
    }

    open spec fn eq_spec(&self, other: &Index) -> bool {
        self@ == other@
    }
}

pub open spec fn digit_char(d: nat) -> char {
    if d == 0 {
        '0'
    } else if d == 1 {
        '1'
    } else if d == 2 {
        '2'
    } else if d == 3 {
        '3'
    } else if d == 4 {
        '4'
    } else if d == 5 {
        '5'
    } else if d == 6 {
        '6'
    } else if d == 7 {
        '7'
    } else if d == 8 {
        '8'
    } else {
        '9'
    }
}

/// The decimal digits of `n`.
pub open spec fn decimal(n: nat) -> Seq<char>
    decreases n,
{
    if n < 10 {
        seq![digit_char(n)]
    } else {
        decimal(n / 10).push(digit_char(n % 10))
    }
}

/// Where the last component of `p` starts: just past its last slash.
pub open spec fn name_start(p: Seq<char>) -> int
    decreases p.len(),
{
    if p.len() == 0 {
        0
    } else if p.last() == '/' {
        p.len() as int
    } else {
        name_start(p.drop_last())
    }
}

/// The path that a colliding file of project `pid` is moved to: a folder
/// `pack_<pid>` of the project's own is put before the file's name.
pub open spec fn renamed_path(p: Seq<char>, pid: nat) -> Seq<char> {
    let k = name_start(p);
    p.take(k) + "pack_"@ + decimal(pid) + seq!['/'] + p.skip(k)
}

/// `renamed_path` with `m` underscores after the project id, to step clear of
/// paths that are taken.
pub open spec fn padded_path(p: Seq<char>, pid: nat, m: nat) -> Seq<char> {
    let k = name_start(p);
    p.take(k) + "pack_"@ + decimal(pid) + Seq::new(m, |i: int| '_') + seq!['/'] + p.skip(k)
}

impl Index {
    pub fn new(pid: usize, path: &str) -> (r: Index)
        ensures
            r.pid == pid,
            r.path@ == path@,
    {
        Index { pid, path: path.to_owned() }
    }

    /// Same path and another project.
    pub fn with_pid(&self, pid: usize) -> (r: Index)
        ensures
            r.pid == pid,
            r.path@ == self.path@,
    {
        Index { pid, path: self.path.clone() }
    }

    /// The same file slot moved out of the way of its namesakes in other projects.
    pub fn rename(&self) -> (r: Index)
        ensures
            r.pid == self.pid,
            r.path@ == renamed_path(self.path@, self.pid as nat),
    {
        let p = self.path.as_str();
        let n = p.unicode_len();
        let mut i = n;
        assert(p@.take(n as int) =~= p@);
        while i > 0 && p.get_char(i - 1) != '/'
            invariant
                i <= n,
                n == p@.len(),
                name_start(p@) == name_start(p@.take(i as int)),
            decreases i,
        {
            assert(p@.take(i as int).drop_last() =~= p@.take(i - 1));
            i = i - 1;
        }
        proof {
            if i == 0 {
                assert(p@.take(0) =~= Seq::<char>::empty());
            } else {
                assert(p@.take(i as int).last() == p@[i - 1]);
            }
        }
        let mut out = p.substring_char(0, i).to_owned();
        out.append("pack_");
        push_decimal(&mut out, self.pid);
        out.append("/");
        out.append(p.substring_char(i, n));
        proof {
            reveal_strlit("/");
        }
        Index { pid: self.pid, path: out }
    }
}

impl Index {
    /// The same file slot moved as by `rename`, with `m` underscores after the
    /// project id.
    pub fn rename_padded(&self, m: usize) -> (r: Index)
        ensures
            r.pid == self.pid,
            r.path@ == padded_path(self.path@, self.pid as nat, m as nat),
    {
        let p = self.path.as_str();
        let n = p.unicode_len();
        let mut i = n;
        assert(p@.take(n as int) =~= p@);
        while i > 0 && p.get_char(i - 1) != '/'
            invariant
                i <= n,
                n == p@.len(),
                name_start(p@) == name_start(p@.take(i as int)),
            decreases i,
        {
            assert(p@.take(i as int).drop_last() =~= p@.take(i - 1));
            i = i - 1;
        }
        proof {
            if i == 0 {
                assert(p@.take(0) =~= Seq::<char>::empty());
            } else {
                assert(p@.take(i as int).last() == p@[i - 1]);
            }
            reveal_strlit("_");
        }
        let mut out = p.substring_char(0, i).to_owned();
        out.append("pack_");
        push_decimal(&mut out, self.pid);
        let ghost head = out@;
        let mut q: usize = 0;
        while q < m
            invariant
                q <= m,
                out@ == head + Seq::new(q as nat, |x: int| '_'),
            decreases m - q,
        {
            out.append("_");
            proof {
                reveal_strlit("_");
            }
            assert(out@ =~= head + Seq::new((q + 1) as nat, |x: int| '_'));
            q = q + 1;
        }
        out.append("/");
        out.append(p.substring_char(i, n));
        proof {
            reveal_strlit("/");
        }
        Index { pid: self.pid, path: out }
    }
}

fn digit_text(d: usize) -> (r: &'static str)
    requires
        d < 10,
    ensures
        r@ == seq![digit_char(d as nat)],
{
    proof {
        reveal_strlit("0");
        reveal_strlit("1");
        reveal_strlit("2");
        reveal_strlit("3");
        reveal_strlit("4");
        reveal_strlit("5");
        reveal_strlit("6");
        reveal_strlit("7");
        reveal_strlit("8");
        reveal_strlit("9");
    }
    if d == 0 {
        "0"
    } else if d == 1 {
        "1"
    } else if d == 2 {
        "2"
    } else if d == 3 {
        "3"
    } else if d == 4 {
        "4"
    } else if d == 5 {
        "5"
    } else if d == 6 {
        "6"
    } else if d == 7 {
        "7"
    } else if d == 8 {
        "8"
    } else {
        "9"
    }
}

/// Appends the decimal digits of `n`.
fn push_decimal(out: &mut String, n: usize)
    ensures
        final(out)@ == old(out)@ + decimal(n as nat),
    decreases n,
{
    if n < 10 {
        out.append(digit_text(n));
    } else {
        push_decimal(out, n / 10);
        out.append(digit_text(n % 10));
        assert(final(out)@ =~= old(out)@ + decimal(n as nat));
    }
}

/// The slot of the file that `ns` names as an asset of `kind` in project `pid`.
pub fn into_index(kind: Kind, ns: &Namespace, pid: usize) -> (r: Index)
    ensures
        r.pid == pid,
        r.path@ == asset_path(ns.header@, ns.path@, kind),
{
    Index { pid, path: ns.to_path(kind) }
}

/// The identifier that a slot's path names.
pub fn from_index(index: &Index) -> (r: Result<Namespace, NamespaceError>)
    ensures
        match path_reads_as(index.path@) {
            Ok(hp) => r is Ok && r->Ok_0.header@ == hp.0 && r->Ok_0.path@ == hp.1,
            Err(e) => r == Err::<Namespace, NamespaceError>(e),
        },
{
    Namespace::from_path(index.path.as_str())
}

/// A reference that an asset declares: the kind of asset it names and the name.
pub type Reference = (Kind, (Seq<char>, Seq<char>));

/// The slot that a reference of project `pid` points at.
pub open spec fn ref_slot(pid: nat, r: Reference) -> (nat, Seq<char>) {
    (pid, asset_path(r.1.0, r.1.1, r.0))
}

/// A reference after the file at path `from`, which names the identifier `f`,
/// was renamed to the identifier `to`: a reference moves when it names `f`
/// and points at that path.
pub open spec fn retarget(
    r: Reference,
    from: Seq<char>,
    f: (Seq<char>, Seq<char>),
    to: (Seq<char>, Seq<char>),
) -> Reference {
    if r.1 == f && asset_path(r.1.0, r.1.1, r.0) == from {
        (r.0, to)
    } else {
        r
    }
}

/// `ns`, read as a reference of kind `kind`, after the file at `from.path`,
/// which names `f`, was renamed to the identifier `to`.
pub fn retarget_ns(ns: Namespace, kind: Kind, from: &Index, f: &Namespace, to: &Namespace) -> (r:
    Namespace)
    ensures
        (kind, r@) == retarget((kind, ns@), from.path@, f@, to@),
{
    let p = ns.to_path(kind);
    if ns == *f && p == from.path {
        to.duplicate()
    } else {
        ns
    }
}

pub open spec fn is_digit(c: char) -> bool {
    '0' <= c && c <= '9'
}

proof fn lemma_digit_char(d: nat)
    requires
        d < 10,
    ensures
        is_digit(digit_char(d)),
        forall|e: nat| e < 10 && digit_char(e) == digit_char(d) ==> e == d,
{
}

proof fn lemma_decimal_digits(n: nat)
    ensures
        decimal(n).len() >= 1,
        n >= 10 ==> decimal(n).len() >= 2,
        forall|i: int| 0 <= i < decimal(n).len() ==> is_digit(#[trigger] decimal(n)[i]),
    decreases n,
{
    lemma_digit_char(n % 10);
    if n >= 10 {
        lemma_decimal_digits(n / 10);
        let d = decimal(n / 10);
        assert forall|i: int| 0 <= i < decimal(n).len() implies is_digit(#[trigger] decimal(n)[i]) by {
            if i < d.len() {
                assert(decimal(n)[i] == d[i]);
            }
        }
    }
}

proof fn lemma_decimal_injective(a: nat, b: nat)
    requires
        decimal(a) == decimal(b),
    ensures
        a == b,
    decreases a,
{
    lemma_decimal_digits(a);
    lemma_decimal_digits(b);
    if a < 10 && b < 10 {
        assert(decimal(a)[0] == decimal(b)[0]);
        assert(decimal(a)[0] == digit_char(a));
        assert(decimal(b)[0] == digit_char(b));
        lemma_digit_char(a);
        assert(digit_char(b) == digit_char(a));
    } else if a >= 10 && b >= 10 {
        let da = decimal(a);
        assert(da.drop_last() =~= decimal(a / 10));
        assert(decimal(b).drop_last() =~= decimal(b / 10));
        lemma_decimal_injective(a / 10, b / 10);
        lemma_digit_char(a % 10);
        assert(da.last() == digit_char(a % 10));
        assert(decimal(b).last() == digit_char(b % 10));
        assert(digit_char(b % 10) == digit_char(a % 10));
        assert(a % 10 == b % 10);
        assert(a == (a / 10) * 10 + a % 10);
        assert(b == (b / 10) * 10 + b % 10);
    } else if a < 10 {
        assert(decimal(a).len() == 1);
    } else {
        assert(decimal(b).len() == 1);
    }
}

proof fn lemma_name_start_facts(p: Seq<char>)
    ensures
        0 <= name_start(p) <= p.len(),
        name_start(p) == 0 || p[name_start(p) - 1] == '/',
        forall|i: int| name_start(p) <= i < p.len() ==> p[i] != '/',
    decreases p.len(),
{
    if p.len() > 0 && p.last() != '/' {
        lemma_name_start_facts(p.drop_last());
        assert forall|i: int| name_start(p) <= i < p.len() implies p[i] != '/' by {
            if i < p.len() - 1 {
                assert(p.drop_last()[i] == p[i]);
            }
        }
    }
}

proof fn lemma_name_start_concat(x: Seq<char>, y: Seq<char>)
    requires
        x.len() == 0 || x.last() == '/',
        forall|i: int| 0 <= i < y.len() ==> y[i] != '/',
    ensures
        name_start(x + y) == x.len(),
    decreases y.len(),
{
    if y.len() == 0 {
        assert(x + y =~= x);
    } else {
        assert((x + y).drop_last() =~= x + y.drop_last());
        assert((x + y).last() == y.last());
        lemma_name_start_concat(x, y.drop_last());
    }
}

/// Different files, or different packs, never move to the same path.
#[verifier::rlimit(100)]
pub proof fn lemma_padded_injective(p1: Seq<char>, j1: nat, m1: nat, p2: Seq<char>, j2: nat, m2: nat)
    requires
        padded_path(p1, j1, m1) == padded_path(p2, j2, m2),
    ensures
        p1 == p2,
        j1 == j2,
        m1 == m2,
{
    reveal_strlit("pack_");
    lemma_name_start_facts(p1);
    lemma_name_start_facts(p2);
    lemma_decimal_digits(j1);
    lemma_decimal_digits(j2);
    let k1 = name_start(p1);
    let k2 = name_start(p2);
    let e1 = decimal(j1) + Seq::new(m1, |i: int| '_');
    let e2 = decimal(j2) + Seq::new(m2, |i: int| '_');
    let c1 = p1.take(k1) + ("pack_"@ + e1);
    let c2 = p2.take(k2) + ("pack_"@ + e2);
    let a1 = c1 + seq!['/'];
    let a2 = c2 + seq!['/'];
    let r = padded_path(p1, j1, m1);
    assert(r =~= a1 + p1.skip(k1));
    assert(r =~= a2 + p2.skip(k2));
    assert forall|i: int| 0 <= i < ("pack_"@ + e1).len() implies ("pack_"@ + e1)[i] != '/' by {
        if i >= 5 && i < 5 + decimal(j1).len() {
            assert(is_digit(decimal(j1)[i - 5]));
        }
    }
    assert forall|i: int| 0 <= i < ("pack_"@ + e2).len() implies ("pack_"@ + e2)[i] != '/' by {
        if i >= 5 && i < 5 + decimal(j2).len() {
            assert(is_digit(decimal(j2)[i - 5]));
        }
    }
    assert forall|i: int| 0 <= i < p1.skip(k1).len() implies p1.skip(k1)[i] != '/' by {
        assert(p1.skip(k1)[i] == p1[k1 + i]);
    }
    assert forall|i: int| 0 <= i < p2.skip(k2).len() implies p2.skip(k2)[i] != '/' by {
        assert(p2.skip(k2)[i] == p2[k2 + i]);
    }
    lemma_name_start_concat(a1, p1.skip(k1));
    lemma_name_start_concat(a2, p2.skip(k2));
    assert(a1.len() == a2.len());
    assert(a1 =~= r.take(a1.len() as int));
    assert(a2 =~= r.take(a2.len() as int));
    assert(p1.skip(k1) =~= r.skip(a1.len() as int));
    assert(p2.skip(k2) =~= r.skip(a2.len() as int));
    assert(c1 =~= a1.drop_last());
    assert(c2 =~= a2.drop_last());
    assert(p1.take(k1).len() == 0 || p1.take(k1).last() == '/');
    assert(p2.take(k2).len() == 0 || p2.take(k2).last() == '/');
    lemma_name_start_concat(p1.take(k1), "pack_"@ + e1);
    lemma_name_start_concat(p2.take(k2), "pack_"@ + e2);
    assert(k1 == k2);
    assert(p1.take(k1) =~= c1.take(k1));
    assert(p2.take(k2) =~= c2.take(k2));
    assert(e1 =~= c1.skip(k1 + 5));
    assert(e2 =~= c2.skip(k2 + 5));
    assert(e1 == e2);
    if m1 < m2 {
        let i = e1.len() - 1 - m1;
        assert(e1[i] == decimal(j1)[decimal(j1).len() - 1]);
        assert(is_digit(decimal(j1)[decimal(j1).len() - 1]));
        assert(e2[i] == '_');
    } else if m2 < m1 {
        let i = e2.len() - 1 - m2;
        assert(e2[i] == decimal(j2)[decimal(j2).len() - 1]);
        assert(is_digit(decimal(j2)[decimal(j2).len() - 1]));
        assert(e1[i] == '_');
    }
    assert(decimal(j1) =~= e1.take(decimal(j1).len() as int));
    assert(decimal(j2) =~= e2.take(decimal(j2).len() as int));
    lemma_decimal_injective(j1, j2);
    assert(p1 =~= p1.take(k1) + p1.skip(k1));
    assert(p2 =~= p2.take(k2) + p2.skip(k2));
}

/// The plain move is the padded one with no underscores.
pub proof fn lemma_renamed_is_padded(p: Seq<char>, j: nat)
    ensures
        renamed_path(p, j) == padded_path(p, j, 0),
{
    assert(renamed_path(p, j) =~= padded_path(p, j, 0));
}

} // verus!
