//! Where a file of a pack comes from: its path relative to the pack, and the
//! path it was read from.
use vstd::prelude::*;
use vstd::string::*;

verus! {

/// A file's path inside its pack and the path it was read from. Two sources
/// are the same file slot when their relative paths agree.
#[derive(Debug, Clone)]
pub struct Source {
    pub relative: String,
    pub origin: String,
}

/// The origin path does not lie under the given parent.
#[derive(Debug, Clone, Copy, PartialEq, Eq, Structural)]
pub struct StripPrefixError;

/// `cs` with `piece` added, unless the piece is empty or `.`.
pub open spec fn keep(cs: Seq<Seq<char>>, piece: Seq<char>) -> Seq<Seq<char>> {
    if piece.len() > 0 && piece != seq!['.'] {
        cs.push(piece)
    } else {
        cs
    }
}

/// The components of `s[..i]` that end before a slash, and where the
/// component in progress starts.
pub open spec fn scan(s: Seq<char>, i: int) -> (Seq<Seq<char>>, int)
    decreases i,
{
    if i <= 0 {
        (seq![], 0)
    } else {
        let prev = scan(s, i - 1);
        if s[i - 1] == '/' {
            (keep(prev.0, s.subrange(prev.1, i - 1)), i)
        } else {
            prev
        }
    }
}

/// The components of a path: the pieces between slashes but for empty ones
/// and `.`, after a root component `/` where the path starts with a slash.
pub open spec fn components(s: Seq<char>) -> Seq<Seq<char>> {
    let sc = scan(s, s.len() as int);
    let body = keep(sc.0, s.subrange(sc.1, s.len() as int));
    if s.len() > 0 && s[0] == '/' {
        seq![seq!['/']] + body
    } else {
        body
    }
}

/// Components joined by slashes; none is added after the root.
pub open spec fn join_components(cs: Seq<Seq<char>>) -> Seq<char>
    decreases cs.len(),
{
    if cs.len() == 0 {
        seq![]
    } else {
        let a = join_components(cs.drop_last());
        if a.len() == 0 || a.last() == '/' {
            a + cs.last()
        } else {
            a + seq!['/'] + cs.last()
        }
    }
}

/// The components of `parent` start those of `origin`.
pub open spec fn lies_under(parent: Seq<char>, origin: Seq<char>) -> bool {
    let p = components(parent);
    let o = components(origin);
    p.len() <= o.len() && o.take(p.len() as int) == p
}

/// The components of `origin` past those of `parent`, joined.
pub open spec fn relative_part(parent: Seq<char>, origin: Seq<char>) -> Seq<char> {
    join_components(components(origin).skip(components(parent).len() as int))
}

/// The components of a path.
fn components_of(s: &str) -> (r: Vec<String>)
    ensures
        r@.len() == components(s@).len(),
        forall|k: int| 0 <= k < r@.len() ==> (#[trigger] r@[k])@ == components(s@)[k],
{
    let n = s.unicode_len();
    let mut out: Vec<String> = Vec::new();
    let mut start: usize = 0;
    let mut i: usize = 0;
    while i < n
        invariant
            i <= n,
            n == s@.len(),
            start <= i,
            start as int == scan(s@, i as int).1,
            out@.len() == scan(s@, i as int).0.len(),
            forall|k: int| 0 <= k < out@.len() ==> (#[trigger] out@[k])@ == scan(s@, i as int).0[k],
        decreases n - i,
    {
        if s.get_char(i) == '/' {
            let piece = s.substring_char(start, i);
            let m = piece.unicode_len();
            let dot = m == 1 && piece.get_char(0) == '.';
            proof {
                assert(dot == (piece@ == seq!['.'])) by {
                    if m == 1 {
                        assert(piece@ =~= seq![piece@[0]]);
                    }
                }
            }
            if m > 0 && !dot {
                out.push(piece.to_owned());
            }
            start = i + 1;
        }
        i = i + 1;
    }
    let piece = s.substring_char(start, n);
    let m = piece.unicode_len();
    let dot = m == 1 && piece.get_char(0) == '.';
    proof {
        assert(dot == (piece@ == seq!['.'])) by {
            if m == 1 {
                assert(piece@ =~= seq![piece@[0]]);
            }
        }
    }
    if m > 0 && !dot {
        out.push(piece.to_owned());
    }
    if n > 0 && s.get_char(0) == '/' {
        let root = String::from_str("/");
        proof {
            reveal_strlit("/");
        }
        out.insert(0, root);
    }
    out
}

impl PartialEq for Source {
    fn eq(&self, other: &Source) -> (r: bool) {
        self.relative == other.relative
    }
}

impl vstd::std_specs::cmp::PartialEqSpecImpl for Source {
    open spec fn obeys_eq_spec() -> bool {
        true
    }

    open spec fn eq_spec(&self, other: &Source) -> bool {
        self.relative@ == other.relative@
    }
}

impl Eq for Source {}

impl core::hash::Hash for Source {
    /// Relies on `String`'s `Hash`: a source hashes as its relative path, so
    /// that equal sources hash alike.
    #[verifier::external_body]
    fn hash<H: core::hash::Hasher>(&self, state: &mut H) {
        self.relative.hash(state)
    }
}

impl Source {
    pub fn new(relative: String, origin: String) -> (r: Source)
        ensures
            r.relative@ == relative@,
            r.origin@ == origin@,
    {
        Source { relative, origin }
    }

    /// A source with no file behind it.
    pub fn new_virtual(relative: &str) -> (r: Source)
        ensures
            r.relative@ == relative@,
            r.origin@ == Seq::<char>::empty(),
    {
        Source::new(relative.to_owned(), String::new())
    }

    pub fn new_origin(relative: &str, origin: &str) -> (r: Source)
        ensures
            r.relative@ == relative@,
            r.origin@ == origin@,
    {
        Source::new(relative.to_owned(), origin.to_owned())
    }

    /// The source of the file at `origin` in the pack rooted at `parent`:
    /// the components of `parent` must start those of `origin`.
    pub fn from_parent(parent: &str, origin: &str) -> (r: Result<Source, StripPrefixError>)
        ensures
            r is Ok <==> lies_under(parent@, origin@),
            r is Ok ==> r->Ok_0.relative@ == relative_part(parent@, origin@) && r->Ok_0.origin@
                == origin@,
    {
        let ghost pv = components(parent@);
        let ghost ov = components(origin@);
        let pc = components_of(parent);
        let oc = components_of(origin);
        if pc.len() > oc.len() {
            return Err(StripPrefixError);
        }
        let mut k: usize = 0;
        while k < pc.len()
            invariant
                k <= pc@.len() <= oc@.len(),
                pv == components(parent@),
                ov == components(origin@),
                pc@.len() == pv.len(),
                oc@.len() == ov.len(),
                forall|q: int| 0 <= q < pc@.len() ==> (#[trigger] pc@[q])@ == pv[q],
                forall|q: int| 0 <= q < oc@.len() ==> (#[trigger] oc@[q])@ == ov[q],
                forall|q: int| 0 <= q < k ==> ov[q] == pv[q],
            decreases pc@.len() - k,
        {
            if !(pc[k] == oc[k]) {
                assert(ov.take(pv.len() as int)[k as int] == ov[k as int]);
                assert(ov[k as int] != pv[k as int]);
                return Err(StripPrefixError);
            }
            k = k + 1;
        }
        assert(ov.take(pv.len() as int) =~= pv);
        let p = pc.len();
        let ghost rest = ov.skip(p as int);
        let mut out = String::new();
        let mut j: usize = p;
        assert(rest.take(0) =~= Seq::<Seq<char>>::empty());
        while j < oc.len()
            invariant
                p <= j <= oc@.len(),
                pv == components(parent@),
                ov == components(origin@),
                oc@.len() == ov.len(),
                p == pv.len(),
                rest == ov.skip(p as int),
                forall|q: int| 0 <= q < oc@.len() ==> (#[trigger] oc@[q])@ == ov[q],
                out@ == join_components(rest.take(j - p)),
            decreases oc@.len() - j,
        {
            let len = out.as_str().unicode_len();
            let bare = len == 0 || out.as_str().get_char(len - 1) == '/';
            if !bare {
                out.append("/");
            }
            out.append(oc[j].as_str());
            proof {
                reveal_strlit("/");
                let t = rest.take(j + 1 - p);
                assert(t.drop_last() =~= rest.take(j - p));
                assert(t.last() == ov[j as int]);
            }
            j = j + 1;
        }
        assert(rest.take(j - p) =~= rest);
        Ok(Source::new(out, origin.to_owned()))
    }
}

} // verus!
