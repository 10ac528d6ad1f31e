//! Small helpers on paths and file text.
use vstd::prelude::*;
use vstd::string::*;

verus! {

/// A directory as it is read (`physical`) and as it is reported (`origin`);
/// `is_temp` marks a directory unpacked from an archive, to be removed after use.
#[derive(Debug, Clone)]
pub struct ResourcePath {
    pub physical: String,
    pub origin: String,
    pub is_temp: bool,
}

impl PartialEq for ResourcePath {
    fn eq(&self, other: &ResourcePath) -> (r: bool) {
        self.physical == other.physical && self.origin == other.origin && self.is_temp
            == other.is_temp
    }
}

impl vstd::std_specs::cmp::PartialEqSpecImpl for ResourcePath {
    open spec fn obeys_eq_spec() -> bool {
        true
    }

    open spec fn eq_spec(&self, other: &ResourcePath) -> bool {
        self.physical@ == other.physical@ && self.origin@ == other.origin@ && self.is_temp
            == other.is_temp
    }
}

impl Eq for ResourcePath {}

/// `base` joined with `path`: a path that starts at the root replaces the base.
pub open spec fn path_join(base: Seq<char>, path: Seq<char>) -> Seq<char> {
    if path.len() > 0 && path[0] == '/' {
        path
    } else if base.len() == 0 {
        path
    } else if base.last() == '/' {
        base + path
    } else {
        base + seq!['/'] + path
    }
}

/// `base` joined with `path`.
pub fn join_path(base: &str, path: &str) -> (r: String)
    ensures
        r@ == path_join(base@, path@),
{
    let n = base.unicode_len();
    let m = path.unicode_len();
    if m > 0 && path.get_char(0) == '/' {
        path.to_owned()
    } else if n == 0 {
        path.to_owned()
    } else if base.get_char(n - 1) == '/' {
        let mut r = base.to_owned();
        r.append(path);
        r
    } else {
        let mut r = base.to_owned();
        r.append("/");
        r.append(path);
        proof {
            reveal_strlit("/");
        }
        r
    }
}

impl ResourcePath {
    pub fn from_directory(path: &str) -> (r: ResourcePath)
        ensures
            r.physical@ == path@,
            r.origin@ == path@,
            !r.is_temp,
    {
        ResourcePath { physical: path.to_owned(), origin: path.to_owned(), is_temp: false }
    }

    pub fn from_compress_file(physical: &str, origin: &str) -> (r: ResourcePath)
        ensures
            r.physical@ == physical@,
            r.origin@ == origin@,
            r.is_temp,
    {
        ResourcePath { physical: physical.to_owned(), origin: origin.to_owned(), is_temp: true }
    }

    /// The entry `path` of this directory; it is never temporary itself.
    pub fn join(&self, path: &str) -> (r: ResourcePath)
        ensures
            r.physical@ == path_join(self.physical@, path@),
            r.origin@ == path_join(self.origin@, path@),
            !r.is_temp,
    {
        let physical = join_path(self.physical.as_str(), path);
        let origin = join_path(self.origin.as_str(), path);
        ResourcePath { physical, origin, is_temp: false }
    }
}

/// The number of byte order marks that `s` starts with.
pub open spec fn leading_marks(s: Seq<char>) -> nat
    decreases s.len(),
{
    if s.len() > 0 && s[0] == '\u{feff}' {
        1 + leading_marks(s.drop_first())
    } else {
        0
    }
}

/// The text without the byte order marks at its start, which JSON readers refuse.
pub fn bom_fix(content: String) -> (r: String)
    ensures
        r@ == content@.skip(leading_marks(content@) as int),
{
    let s = content.as_str();
    let n = s.unicode_len();
    let mut i: usize = 0;
    assert(s@.skip(0) =~= s@);
    while i < n && s.get_char(i) == '\u{feff}'
        invariant
            i <= n,
            n == s@.len(),
            leading_marks(s@) == i + leading_marks(s@.skip(i as int)),
        decreases n - i,
    {
        assert(s@.skip(i as int).drop_first() =~= s@.skip(i + 1));
        i = i + 1;
    }
    assert(i < n ==> s@.skip(i as int)[0] == s@[i as int]);
    s.substring_char(i, n).to_owned()
}

/// The bytes without a UTF-8 byte order mark at their start. The slice must
/// not be empty, and must hold the whole mark where it starts with one.
pub fn bom_fix_vec(content: &[u8]) -> (r: &[u8])
    requires
        content@.len() > 0,
        content@[0] == 0xEF ==> content@.len() >= 3,
    ensures
        r@ == if content@[0] == 0xEF {
            content@.skip(3)
        } else {
            content@
        },
{
    if content[0] == 0xEF {
        let r = vstd::slice::slice_subrange(content, 3, content.len());
        assert(r@ =~= content@.skip(3));
        r
    } else {
        content
    }
}

} // verus!
