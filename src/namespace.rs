//! Asset identifiers (`header:path`) and their mapping to pack-relative paths.
//!
//! Paths are text with `/` between components, relative to a pack's root.
use core::cmp::Ordering;
use vstd::prelude::*;
use vstd::string::*;

verus! {

/// The kinds of asset that an identifier can name; each has its own folder and
/// file extension inside `assets/<header>/`.
#[derive(Debug, Clone, Copy, PartialEq, Eq, Structural)]
pub enum Kind {
    BlockState,
    Model,
    Texture,
    Lang,
    Font,
}

pub open spec fn kind_extension(k: Kind) -> Seq<char> {
    match k {
        Kind::Texture => "png"@,
        _ => "json"@,
    }
}

pub open spec fn kind_cover(k: Kind) -> Seq<char> {
    match k {
        Kind::BlockState => "blockstates"@,
        Kind::Model => "models"@,
        Kind::Texture => "textures"@,
        Kind::Lang => "lang"@,
        Kind::Font => "font"@,
    }
}

impl Kind {
    pub fn extension(&self) -> (r: &'static str)
        ensures
            r@ == kind_extension(*self),
    {
        match self {
            Kind::Texture => "png",
            _ => "json",
        }
    }

    pub fn cover(&self) -> (r: &'static str)
        ensures
            r@ == kind_cover(*self),
    {
        match self {
            Kind::BlockState => "blockstates",
            Kind::Model => "models",
            Kind::Texture => "textures",
            Kind::Lang => "lang",
            Kind::Font => "font",
        }
    }
}

/// Why a text or a path could not be read as an identifier.
#[derive(Debug, Clone, Copy, PartialEq, Eq, Structural)]
pub enum NamespaceError {
    PathTooShort,
    InvalidNamespace,
}

impl NamespaceError {
    pub fn message(&self) -> (r: &'static str)
        ensures
            r@ == match self {
                NamespaceError::PathTooShort => "Path is too short to convert to namespace"@,
                NamespaceError::InvalidNamespace => "Invalid namespace"@,
            },
    {
        match self {
            NamespaceError::PathTooShort => "Path is too short to convert to namespace",
            NamespaceError::InvalidNamespace => "Invalid namespace",
        }
    }
}

pub open spec fn is_header_char(c: char) -> bool {
    ('a' <= c && c <= 'z') || ('0' <= c && c <= '9') || c == '.' || c == '_' || c == '#'
}

pub open spec fn is_path_char(c: char) -> bool {
    is_header_char(c) || c == '/'
}

pub open spec fn valid_header(s: Seq<char>) -> bool {
    s.len() > 0 && forall|i: int| 0 <= i < s.len() ==> is_header_char(#[trigger] s[i])
}

pub open spec fn valid_path(s: Seq<char>) -> bool {
    s.len() > 0 && forall|i: int| 0 <= i < s.len() ==> is_path_char(#[trigger] s[i])
}

/// The header that the short form `path` stands for.
pub open spec fn vanilla_header() -> Seq<char> {
    "minecraft"@
}

/// `s` is the text of the identifier with header `h` and path `p`, written
/// either as `p` alone (header `minecraft`) or as `h:p`.
pub open spec fn reads_as(s: Seq<char>, h: Seq<char>, p: Seq<char>) -> bool {
    ||| valid_path(s) && h == vanilla_header() && p == s
    ||| valid_header(h) && valid_path(p) && s == h + seq![':'] + p
}

/// The first position at or after `from` that holds `c`, or the length of `s`.
pub open spec fn find_from(s: Seq<char>, c: char, from: int) -> int
    decreases s.len() - from,
{
    if from < 0 || from >= s.len() {
        s.len() as int
    } else if s[from] == c {
        from
    } else {
        find_from(s, c, from + 1)
    }
}

/// `j` is the dot that starts the extension of the last component of `r`.
pub open spec fn extension_dot(r: Seq<char>, j: int) -> bool {
    &&& 0 <= j < r.len()
    &&& r[j] == '.'
    &&& forall|k: int| j < k < r.len() ==> r[k] != '.' && r[k] != '/'
}

/// `r` without the extension of its last component.
pub open spec fn strip_extension(r: Seq<char>) -> Seq<char> {
    if exists|j: int| extension_dot(r, j) {
        r.take(choose|j: int| extension_dot(r, j))
    } else {
        r
    }
}

/// `assets/<header>/<cover>/<path>.<extension>`.
pub open spec fn asset_path(h: Seq<char>, p: Seq<char>, k: Kind) -> Seq<char> {
    "assets/"@ + h + "/"@ + kind_cover(k) + "/"@ + p + "."@ + kind_extension(k)
}

/// What a pack-relative path names: the second component is the header, the
/// fourth and later ones, without the extension, are the path; both must
/// follow the identifier grammar.
pub open spec fn path_reads_as(s: Seq<char>) -> Result<(Seq<char>, Seq<char>), NamespaceError> {
    let a = find_from(s, '/', 0);
    let b = find_from(s, '/', a + 1);
    let c = find_from(s, '/', b + 1);
    if c >= s.len() {
        Err(NamespaceError::PathTooShort)
    } else {
        let path = strip_extension(s.subrange(c + 1, s.len() as int));
        let header = s.subrange(a + 1, b);
        if valid_header(header) && valid_path(path) {
            Ok((header, path))
        } else {
            Err(NamespaceError::InvalidNamespace)
        }
    }
}

/// Lexicographic order of two texts, character by character.
pub open spec fn text_cmp(a: Seq<char>, b: Seq<char>) -> Ordering
    decreases a.len(),
{
    if a.len() == 0 {
        if b.len() == 0 {
            Ordering::Equal
        } else {
            Ordering::Less
        }
    } else if b.len() == 0 {
        Ordering::Greater
    } else if a[0] < b[0] {
        Ordering::Less
    } else if a[0] > b[0] {
        Ordering::Greater
    } else {
        text_cmp(a.drop_first(), b.drop_first())
    }
}

/// An asset identifier such as `minecraft:block/stone`.
#[derive(Debug, Clone)]
pub struct Namespace {
    pub header: String,
    pub path: String,
}

impl View for Namespace {
    type V = (Seq<char>, Seq<char>);

    open spec fn view(&self) -> (Seq<char>, Seq<char>) {
        (self.header@, self.path@)
    }
}

impl PartialEq for Namespace {
    fn eq(&self, other: &Namespace) -> (r: bool) {
        self.header == other.header && self.path == other.path
    }
}

impl vstd::std_specs::cmp::PartialEqSpecImpl for Namespace {
    open spec fn obeys_eq_spec() -> bool {
        true
    }

    open spec fn eq_spec(&self, other: &Namespace) -> bool {
        self.header@ == other.header@ && self.path@ == other.path@
    }
}

impl Namespace {
    /// Header and path both follow the identifier grammar.
    pub open spec fn wf(&self) -> bool {
        valid_header(self.header@) && valid_path(self.path@)
    }

    /// Identifiers are ordered by header, then by path.
    pub open spec fn order(&self, other: &Namespace) -> Ordering {
        let h = text_cmp(self.header@, other.header@);
        if h == Ordering::Equal {
            text_cmp(self.path@, other.path@)
        } else {
            h
        }
    }

    pub fn new(header: &str, path: &str) -> (r: Namespace)
        ensures
            r.header@ == header@,
            r.path@ == path@,
    {
        Namespace { header: header.to_owned(), path: path.to_owned() }
    }

    /// A copy with the same header and path.
    pub fn duplicate(&self) -> (r: Namespace)
        ensures
            r@ == self@,
    {
        Namespace { header: self.header.clone(), path: self.path.clone() }
    }

    pub fn raw(&self) -> (r: (&String, &String))
        ensures
            r.0 == &self.header,
            r.1 == &self.path,
    {
        (&self.header, &self.path)
    }

    /// Reads `path` or `header:path`.
    pub fn parse(s: &str) -> (r: Result<Namespace, NamespaceError>)
        ensures
            parse_outcome(s@, r),
    {
        let n = s.unicode_len();
        let colon = find_char(s, ':', 0);
        proof {
            lemma_find_from(s@, ':', 0);
        }
        if colon == n {
            if n > 0 && all_chars(s, 0, n, true) {
                proof {
                    reveal_strlit("minecraft");
                }
                let ns = Namespace { header: "minecraft".to_owned(), path: s.to_owned() };
                Ok(ns)
            } else {
                assert forall|h: Seq<char>, p: Seq<char>| !#[trigger] reads_as(s@, h, p) by {
                    if s@ == h + seq![':'] + p {
                        assert(s@[h.len() as int] == ':');
                    }
                }
                Err(NamespaceError::InvalidNamespace)
            }
        } else {
            let ok = colon > 0 && colon + 1 < n && all_chars(s, 0, colon, false) && all_chars(
                s,
                colon + 1,
                n,
                true,
            );
            proof {
                assert(!is_path_char(s@[colon as int]));
                assert forall|h: Seq<char>, p: Seq<char>| #[trigger]
                    reads_as(s@, h, p) implies h == s@.take(colon as int) && p == s@.skip(
                    colon + 1,
                ) && valid_header(h) && valid_path(p) by {
                    assert(!valid_path(s@));
                    assert(s@ == h + seq![':'] + p);
                    assert(s@[h.len() as int] == ':');
                    if (colon as int) < h.len() {
                        assert(s@[colon as int] == h[colon as int]);
                    }
                    assert(h =~= s@.take(colon as int));
                    assert(p =~= s@.skip(colon + 1));
                }
            }
            if ok {
                let header = s.substring_char(0, colon).to_owned();
                let path = s.substring_char(colon + 1, n).to_owned();
                proof {
                    assert(s@ =~= header@ + seq![':'] + path@);
                    assert forall|i: int| 0 <= i < header@.len() implies is_header_char(
                        #[trigger] header@[i],
                    ) by {
                        assert(header@[i] == s@[i]);
                    }
                    assert forall|i: int| 0 <= i < path@.len() implies is_path_char(
                        #[trigger] path@[i],
                    ) by {
                        assert(path@[i] == s@[colon + 1 + i]);
                    }
                }
                Ok(Namespace { header, path })
            } else {
                proof {
                    assert forall|h: Seq<char>, p: Seq<char>| !#[trigger] reads_as(s@, h, p) by {
                        if reads_as(s@, h, p) {
                            assert(h == s@.take(colon as int));
                            assert(p == s@.skip(colon + 1));
                            assert(h.len() == colon);
                            assert forall|i: int| 0 <= i < colon implies is_header_char(
                                #[trigger] s@[i],
                            ) by {
                                assert(s@[i] == h[i]);
                            }
                            assert forall|i: int| colon + 1 <= i < n implies is_path_char(
                                #[trigger] s@[i],
                            ) by {
                                assert(s@[i] == p[i - colon - 1]);
                            }
                        }
                    }
                }
                Err(NamespaceError::InvalidNamespace)
            }
        }
    }

    /// `assets/<header>/<cover>/<path>.<extension>` for the given kind.
    pub fn to_path(&self, kind: Kind) -> (r: String)
        ensures
            r@ == asset_path(self.header@, self.path@, kind),
    {
        let mut r = String::from_str("assets/");
        r.append(self.header.as_str());
        r.append("/");
        r.append(kind.cover());
        r.append("/");
        r.append(self.path.as_str());
        r.append(".");
        r.append(kind.extension());
        r
    }

    /// The identifier that a pack-relative path names.
    pub fn from_path(s: &str) -> (r: Result<Namespace, NamespaceError>)
        ensures
            match path_reads_as(s@) {
                Ok(hp) => r is Ok && r->Ok_0.header@ == hp.0 && r->Ok_0.path@ == hp.1,
                Err(e) => r == Err::<Namespace, NamespaceError>(e),
            },
    {
        let n = s.unicode_len();
        let a = find_char(s, '/', 0);
        if a == n {
            return Err(NamespaceError::PathTooShort);
        }
        let b = find_char(s, '/', a + 1);
        if b == n {
            return Err(NamespaceError::PathTooShort);
        }
        let c = find_char(s, '/', b + 1);
        if c == n {
            return Err(NamespaceError::PathTooShort);
        }
        proof {
            lemma_find_from(s@, '/', 0);
            lemma_find_from(s@, '/', a + 1);
            lemma_find_from(s@, '/', b + 1);
        }
        let rest = s.substring_char(c + 1, n);
        let path = without_extension(rest);
        let m = path.unicode_len();
        let header = s.substring_char(a + 1, b);
        let hn = header.unicode_len();
        if m == 0 || hn == 0 || !all_chars(header, 0, hn, false) || !all_chars(path, 0, m, true) {
            return Err(NamespaceError::InvalidNamespace);
        }
        Ok(Namespace { header: header.to_owned(), path: path.to_owned() })
    }

    /// `header:path`.
    pub fn identifier(&self) -> (r: String)
        ensures
            r@ == self.header@ + ":"@ + self.path@,
    {
        let mut r = self.header.clone();
        r.append(":");
        r.append(self.path.as_str());
        r
    }

    /// Compares by header, then by path.
    pub fn compare(&self, other: &Namespace) -> (r: Ordering)
        ensures
            r == self.order(other),
    {
        let h = compare_text(self.header.as_str(), other.header.as_str());
        match h {
            Ordering::Equal => compare_text(self.path.as_str(), other.path.as_str()),
            _ => h,
        }
    }
}

/// `r` is what reading the text `s` as an identifier gives.
pub open spec fn parse_outcome(s: Seq<char>, r: Result<Namespace, NamespaceError>) -> bool {
    match r {
        Ok(ns) => reads_as(s, ns.header@, ns.path@),
        Err(e) => e == NamespaceError::InvalidNamespace && forall|h: Seq<char>, p: Seq<char>|
            !#[trigger] reads_as(s, h, p),
    }
}

impl<'a> TryFrom<&'a str> for Namespace {
    type Error = NamespaceError;

    fn try_from(value: &'a str) -> (r: Result<Namespace, NamespaceError>)
        ensures
            parse_outcome(value@, r),
    {
        Namespace::parse(value)
    }
}

impl<'a> vstd::std_specs::convert::TryFromSpecImpl<&'a str> for Namespace {
    open spec fn obeys_try_from_spec() -> bool {
        false
    }

    open spec fn try_from_spec(v: &'a str) -> Result<Namespace, NamespaceError> {
        choose|r: Result<Namespace, NamespaceError>| #[trigger] parse_outcome(v@, r)
    }
}

pub proof fn lemma_find_from(s: Seq<char>, c: char, from: int)
    requires
        0 <= from,
    ensures
        from <= find_from(s, c, from) <= s.len() || (from > s.len() && find_from(s, c, from)
            == s.len()),
        find_from(s, c, from) < s.len() ==> s[find_from(s, c, from)] == c,
        forall|k: int| from <= k < find_from(s, c, from) ==> s[k] != c,
    decreases s.len() - from,
{
    if from < s.len() && s[from] != c {
        lemma_find_from(s, c, from + 1);
    }
}

proof fn lemma_find_at(s: Seq<char>, c: char, from: int, j: int)
    requires
        0 <= from <= j < s.len(),
        s[j] == c,
        forall|k: int| from <= k < j ==> s[k] != c,
    ensures
        find_from(s, c, from) == j,
    decreases j - from,
{
    if from < j {
        lemma_find_at(s, c, from + 1, j);
    }
}

/// The first position at or after `from` where `s` holds `c`, or its length.
fn find_char(s: &str, c: char, from: usize) -> (r: usize)
    requires
        from <= s@.len(),
    ensures
        r == find_from(s@, c, from as int),
        from <= r <= s@.len(),
{
    let n = s.unicode_len();
    let mut i = from;
    while i < n
        invariant
            from <= i <= n,
            n == s@.len(),
            find_from(s@, c, from as int) == find_from(s@, c, i as int),
        decreases n - i,
    {
        if s.get_char(i) == c {
            return i;
        }
        i = i + 1;
    }
    i
}

fn is_header_char_exec(c: char) -> (r: bool)
    ensures
        r == is_header_char(c),
{
    ('a' <= c && c <= 'z') || ('0' <= c && c <= '9') || c == '.' || c == '_' || c == '#'
}

/// Every character of `s` in `[from, to)` may stand in a path (`slash`) or a header.
fn all_chars(s: &str, from: usize, to: usize, slash: bool) -> (r: bool)
    requires
        from <= to <= s@.len(),
    ensures
        r == forall|i: int|
            from <= i < to ==> if slash {
                is_path_char(#[trigger] s@[i])
            } else {
                is_header_char(s@[i])
            },
{
    let mut i = from;
    while i < to
        invariant
            from <= i <= to <= s@.len(),
            forall|k: int|
                from <= k < i ==> if slash {
                    is_path_char(#[trigger] s@[k])
                } else {
                    is_header_char(s@[k])
                },
        decreases to - i,
    {
        let c = s.get_char(i);
        let good = is_header_char_exec(c) || (slash && c == '/');
        if !good {
            return false;
        }
        i = i + 1;
    }
    true
}

proof fn lemma_extension_dot_unique(r: Seq<char>, j1: int, j2: int)
    requires
        extension_dot(r, j1),
        extension_dot(r, j2),
    ensures
        j1 == j2,
{
}

/// `r` without the extension of its last component.
pub fn without_extension(r: &str) -> (out: &str)
    ensures
        out@ == strip_extension(r@),
{
    let m = r.unicode_len();
    let mut i = m;
    while i > 0
        invariant
            i <= m,
            m == r@.len(),
            forall|k: int| i <= k < m ==> r@[k] != '.' && r@[k] != '/',
        decreases i,
    {
        let ch = r.get_char(i - 1);
        if ch == '.' {
            proof {
                assert(extension_dot(r@, i - 1));
                let j = choose|j: int| extension_dot(r@, j);
                lemma_extension_dot_unique(r@, j, i - 1);
            }
            return r.substring_char(0, i - 1);
        }
        if ch == '/' {
            proof {
                assert forall|j: int| !extension_dot(r@, j) by {
                    if extension_dot(r@, j) && j < i - 1 {
                        assert(r@[i - 1] != '/');
                    }
                }
            }
            return r;
        }
        i = i - 1;
    }
    proof {
        assert forall|j: int| !extension_dot(r@, j) by {}
    }
    r
}

/// Compares two texts character by character.
pub fn compare_text(a: &str, b: &str) -> (r: Ordering)
    ensures
        r == text_cmp(a@, b@),
{
    let n = a.unicode_len();
    let m = b.unicode_len();
    let mut i: usize = 0;
    assert(a@.skip(0) =~= a@);
    assert(b@.skip(0) =~= b@);
    while i < n && i < m
        invariant
            i <= n,
            i <= m,
            n == a@.len(),
            m == b@.len(),
            text_cmp(a@, b@) == text_cmp(a@.skip(i as int), b@.skip(i as int)),
        decreases n - i,
    {
        let x = a.get_char(i);
        let y = b.get_char(i);
        if x < y {
            return Ordering::Less;
        }
        if x > y {
            return Ordering::Greater;
        }
        assert(a@.skip(i as int).drop_first() =~= a@.skip(i + 1));
        assert(b@.skip(i as int).drop_first() =~= b@.skip(i + 1));
        i = i + 1;
    }
    if i < n {
        Ordering::Greater
    } else if i < m {
        Ordering::Less
    } else {
        Ordering::Equal
    }
}

/// Reading back the path of an identifier, of any kind, gives that identifier.
pub proof fn law_path_round_trip(h: Seq<char>, p: Seq<char>, k: Kind)
    requires
        valid_header(h),
        valid_path(p),
    ensures
        path_reads_as(asset_path(h, p, k)) == Ok::<(Seq<char>, Seq<char>), NamespaceError>((h, p)),
{
    reveal_strlit("assets/");
    reveal_strlit("/");
    reveal_strlit(".");
    reveal_strlit("json");
    reveal_strlit("png");
    reveal_strlit("blockstates");
    reveal_strlit("models");
    reveal_strlit("textures");
    reveal_strlit("lang");
    reveal_strlit("font");
    let s = asset_path(h, p, k);
    let cov = kind_cover(k);
    let ext = kind_extension(k);
    assert(forall|i: int| 0 <= i < cov.len() ==> cov[i] != '/' && cov[i] != '.');
    assert(forall|i: int| 0 <= i < ext.len() ==> ext[i] != '/' && ext[i] != '.');
    let a = 6int;
    let b: int = 7 + h.len() as int;
    let c: int = 8 + h.len() as int + cov.len() as int;
    assert(s =~= "assets"@ + seq!['/'] + h + seq!['/'] + cov + seq!['/'] + p + seq!['.'] + ext)
        by {
        reveal_strlit("assets");
    }
    assert(s[a] == '/');
    assert forall|i: int| 0 <= i < a implies s[i] != '/' by {
        reveal_strlit("assets");
    }
    lemma_find_at(s, '/', 0, a);
    assert(s[b] == '/');
    assert forall|i: int| a + 1 <= i < b implies s[i] != '/' by {
        assert(s[i] == h[i - 7]);
        assert(is_header_char(h[i - 7]));
    }
    lemma_find_at(s, '/', a + 1, b);
    assert(s[c] == '/');
    assert forall|i: int| b + 1 <= i < c implies s[i] != '/' by {
        assert(s[i] == cov[i - b - 1]);
    }
    lemma_find_at(s, '/', b + 1, c);
    let rest = s.subrange(c + 1, s.len() as int);
    assert(rest =~= p + seq!['.'] + ext);
    assert(extension_dot(rest, p.len() as int));
    let j = choose|j: int| extension_dot(rest, j);
    lemma_extension_dot_unique(rest, j, p.len() as int);
    assert(strip_extension(rest) =~= p);
    assert(s.subrange(a + 1, b) =~= h);
}

pub proof fn lemma_text_cmp_facts(a: Seq<char>, b: Seq<char>)
    ensures
        (text_cmp(a, b) == Ordering::Less) == (text_cmp(b, a) == Ordering::Greater),
        (text_cmp(a, b) == Ordering::Equal) == (a == b),
    decreases a.len(),
{
    if a.len() > 0 && b.len() > 0 && a[0] == b[0] {
        lemma_text_cmp_facts(a.drop_first(), b.drop_first());
        if a.drop_first() == b.drop_first() {
            assert(a =~= seq![a[0]] + a.drop_first());
            assert(b =~= seq![b[0]] + b.drop_first());
        }
    }
    if a == b && a.len() > 0 {
        lemma_text_cmp_facts(a.drop_first(), b.drop_first());
    }
    if a.len() == 0 && b.len() == 0 {
        assert(a =~= b);
    }
}

pub proof fn lemma_text_cmp_trans(a: Seq<char>, b: Seq<char>, c: Seq<char>)
    requires
        text_cmp(a, b) != Ordering::Greater,
        text_cmp(b, c) != Ordering::Greater,
    ensures
        text_cmp(a, c) != Ordering::Greater,
    decreases a.len(),
{
    if a.len() > 0 && b.len() > 0 && c.len() > 0 && a[0] == b[0] && b[0] == c[0] {
        lemma_text_cmp_trans(a.drop_first(), b.drop_first(), c.drop_first());
    }
}

pub proof fn lemma_order_facts(a: Namespace, b: Namespace)
    ensures
        (a.order(&b) == Ordering::Less) == (b.order(&a) == Ordering::Greater),
        (a.order(&b) == Ordering::Equal) == (a@ == b@),
{
    lemma_text_cmp_facts(a.header@, b.header@);
    lemma_text_cmp_facts(a.path@, b.path@);
    lemma_text_cmp_facts(b.header@, a.header@);
    lemma_text_cmp_facts(b.path@, a.path@);
}

pub proof fn lemma_order_trans(a: Namespace, b: Namespace, c: Namespace)
    requires
        a.order(&b) != Ordering::Greater,
        b.order(&c) != Ordering::Greater,
    ensures
        a.order(&c) != Ordering::Greater,
{
    lemma_text_cmp_facts(a.header@, b.header@);
    lemma_text_cmp_facts(b.header@, c.header@);
    lemma_text_cmp_facts(a.header@, c.header@);
    lemma_text_cmp_facts(a.path@, c.path@);
    lemma_text_cmp_trans(a.header@, b.header@, c.header@);
    if text_cmp(a.header@, b.header@) == Ordering::Equal && text_cmp(b.header@, c.header@)
        == Ordering::Equal {
        lemma_text_cmp_trans(a.path@, b.path@, c.path@);
    }
}

} // verus!
