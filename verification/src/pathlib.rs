//! Pure, platform-independent path values: component access, name and
//! suffix handling, joining and prefix-relative computation, modelled over
//! `/`-separated character sequences.
//!
//! The filesystem-touching path type lives with the embedding program;
//! only the pure operations are here.

use vstd::prelude::*;
use crate::caps::AsStrLike;
use crate::exceptions::PyException;
use crate::exceptions::value_error;
use crate::glob::glob_match_at;
use crate::glob::last_component;
use crate::strutil::chars_to_string;
use crate::strutil::split_spec;
use crate::strutil::split_chars;
use crate::strutil::str_to_chars;

verus! {

/// The non-empty pieces of `ps` from `i` on.
pub open spec fn nonempty_from(ps: Seq<Seq<char>>, i: int) -> Seq<Seq<char>>
    decreases ps.len() - i,
{
    if i < 0 || i >= ps.len() {
        Seq::empty()
    } else if ps[i].len() > 0 {
        seq![ps[i]] + nonempty_from(ps, i + 1)
    } else {
        nonempty_from(ps, i + 1)
    }
}

/// The components of a path: the non-empty pieces between separators.
pub open spec fn components_spec(s: Seq<char>) -> Seq<Seq<char>> {
    nonempty_from(split_spec(s, "/"@), 0)
}

/// Whether the path is absolute: it begins with the separator.
pub open spec fn is_abs_spec(s: Seq<char>) -> bool {
    s.len() > 0 && s[0] == '/'
}

/// The parts of a path: the root first when absolute, then the components.
pub open spec fn parts_spec(s: Seq<char>) -> Seq<Seq<char>> {
    if is_abs_spec(s) {
        seq!["/"@] + components_spec(s)
    } else {
        components_spec(s)
    }
}

/// The final component of the path (empty for a root or empty path).
pub open spec fn name_spec(s: Seq<char>) -> Seq<char> {
    last_component(s)
}

/// The position after the last `.` of `name` that is not its first
/// character, or `-1` when the name has no such dot.
pub open spec fn last_dot(name: Seq<char>, i: int) -> int
    decreases i + 1,
{
    if i <= 0 {
        -1
    } else if i < name.len() && name[i] == '.' {
        i
    } else {
        last_dot(name, i - 1)
    }
}

/// The suffix of the path's name: from its last non-leading dot on.
pub open spec fn suffix_spec(s: Seq<char>) -> Seq<char> {
    ({
        let name = name_spec(s);
        let d = last_dot(name, name.len() - 1);
        if d > 0 {
            name.skip(d)
        } else {
            Seq::empty()
        }
    })
}

/// The stem of the path's name: the name up to its last non-leading dot.
pub open spec fn stem_spec(s: Seq<char>) -> Seq<char> {
    ({
        let name = name_spec(s);
        let d = last_dot(name, name.len() - 1);
        if d > 0 {
            name.take(d)
        } else {
            name
        }
    })
}

/// Joining: an absolute right side replaces the left; otherwise the right
/// side is appended behind a single separator.
pub open spec fn join_paths_spec(a: Seq<char>, b: Seq<char>) -> Seq<char> {
    if is_abs_spec(b) || a.len() == 0 {
        b
    } else if a.last() == '/' {
        a + b
    } else {
        a + "/"@ + b
    }
}

/// A pure path value: owns its text; the filesystem never enters.
#[derive(Debug, Clone)]
pub struct PurePath {
    path: Vec<char>,
}

impl View for PurePath {
    type V = Seq<char>;

    closed spec fn view(&self) -> Seq<char> {
        self.path@
    }
}

impl PartialEq for PurePath {
    fn eq(&self, other: &PurePath) -> (r: bool) {
        crate::strutil::chars_eq(&self.path, &other.path)
    }
}

impl vstd::std_specs::cmp::PartialEqSpecImpl for PurePath {
    open spec fn obeys_eq_spec() -> bool {
        true
    }

    open spec fn eq_spec(&self, other: &PurePath) -> bool {
        self@ == other@
    }
}

impl PurePath {
    /// A pure path over the given text.
    pub fn new<P: AsStrLike>(path: P) -> (r: PurePath)
        ensures
            r@ == path.str_view(),
    {
        PurePath { path: str_to_chars(path.as_str_like()) }
    }

    /// The path's text with `/` separators.
    pub fn as_posix(&self) -> (r: String)
        ensures
            r@ == self@,
    {
        chars_to_string(&self.path)
    }

    /// Whether the path is absolute.
    pub fn is_absolute(&self) -> (r: bool)
        ensures
            r == is_abs_spec(self@),
    {
        self.path.len() > 0 && self.path[0] == '/'
    }

    /// Whether the path is relative.
    pub fn is_relative(&self) -> (r: bool)
        ensures
            r == !is_abs_spec(self@),
    {
        !(self.path.len() > 0 && self.path[0] == '/')
    }

    /// The drive prefix; always empty on `/`-separated paths.
    pub fn drive(&self) -> (r: String)
        ensures
            r@ == Seq::<char>::empty(),
    {
        String::new()
    }

    /// The root: the separator for an absolute path, empty otherwise.
    pub fn root(&self) -> (r: String)
        ensures
            r@ == if is_abs_spec(self@) {
                "/"@
            } else {
                Seq::<char>::empty()
            },
    {
        if self.path.len() > 0 && self.path[0] == '/' {
            let mut out = String::new();
            out.append("/");
            proof {
                assert(Seq::<char>::empty() + "/"@ =~= "/"@);
            }
            out
        } else {
            String::new()
        }
    }

    /// The anchor: drive plus root, so the root here.
    pub fn anchor(&self) -> (r: String)
        ensures
            r@ == if is_abs_spec(self@) {
                "/"@
            } else {
                Seq::<char>::empty()
            },
    {
        self.root()
    }

    /// The path's parts: the root when absolute, then every component.
    pub fn parts(&self) -> (r: Vec<String>)
        ensures
            r@.map_values(|p: String| p@) == parts_spec(self@),
    {
        let mut sep: Vec<char> = Vec::new();
        sep.push('/');
        proof {
            reveal_strlit("/");
            assert(sep@ =~= "/"@);
        }
        let pieces = split_chars(&self.path, &sep);
        let ghost gp = pieces@.map_values(|p: Vec<char>| p@);
        let mut out: Vec<String> = Vec::new();
        if self.path.len() > 0 && self.path[0] == '/' {
            let mut root = String::new();
            root.append("/");
            proof {
                assert(Seq::<char>::empty() + "/"@ =~= "/"@);
            }
            out.push(root);
        }
        let ghost head = out@.map_values(|p: String| p@);
        let mut i: usize = 0;
        proof {
            assert(head + nonempty_from(gp, 0) =~= head + nonempty_from(gp, 0));
        }
        while i < pieces.len()
            invariant
                i <= pieces@.len(),
                gp == pieces@.map_values(|p: Vec<char>| p@),
                head == if is_abs_spec(self@) {
                    seq!["/"@]
                } else {
                    Seq::<Seq<char>>::empty()
                },
                out@.map_values(|p: String| p@) + nonempty_from(gp, i as int)
                    == head + nonempty_from(gp, 0),
            decreases pieces@.len() - i,
        {
            if pieces[i].len() > 0 {
                let ghost out_before = out@;
                out.push(chars_to_string(&pieces[i]));
                proof {
                    assert(out@.map_values(|p: String| p@)
                        =~= out_before.map_values(|p: String| p@).push(gp[i as int]));
                    assert(out@.map_values(|p: String| p@) + nonempty_from(gp, i + 1)
                        =~= head + nonempty_from(gp, 0));
                }
            }
            i += 1;
        }
        proof {
            assert(out@.map_values(|p: String| p@) + Seq::<Seq<char>>::empty()
                =~= out@.map_values(|p: String| p@));
            assert(out@.map_values(|p: String| p@) =~= head + nonempty_from(gp, 0));
            if is_abs_spec(self@) {
                assert(seq!["/"@] + nonempty_from(gp, 0) =~= parts_spec(self@));
            } else {
                assert(Seq::<Seq<char>>::empty() + nonempty_from(gp, 0) =~= parts_spec(self@));
            }
        }
        out
    }

    /// The final component of the path.
    pub fn name(&self) -> (r: String)
        ensures
            r@ == name_spec(self@),
    {
        let n = self.name_chars();
        chars_to_string(&n)
    }

    /// The final component, as a character buffer.
    fn name_chars(&self) -> (r: Vec<char>)
        ensures
            r@ == name_spec(self@),
            r@.len() <= self@.len(),
    {
        let s = &self.path;
        let mut end: usize = s.len();
        proof {
            assert(s@.take(s@.len() as int) =~= s@);
        }
        while end > 0 && s[end - 1] == '/'
            invariant
                end <= s@.len(),
                forall|k: int| end <= k < s@.len() ==> s@[k] == '/',
                last_component(s@) == last_component(s@.take(end as int)),
            decreases end,
        {
            proof {
                assert(s@.take(end as int).drop_last() =~= s@.take(end - 1));
            }
            end -= 1;
        }
        let mut start: usize = end;
        while start > 0 && s[start - 1] != '/'
            invariant
                start <= end <= s@.len(),
                forall|k: int| end <= k < s@.len() ==> s@[k] == '/',
                forall|k: int| start <= k < end ==> s@[k] != '/',
                last_component(s@) == last_component(s@.take(end as int)),
            decreases start,
        {
            start -= 1;
        }
        let ghost cut = s@.take(end as int);
        proof {
            crate::glob::lemma_last_component_cut(cut, (end - start) as int);
            assert(last_component(cut) =~= s@.subrange(start as int, end as int));
        }
        let mut name: Vec<char> = Vec::new();
        let mut t: usize = start;
        while t < end
            invariant
                start <= t <= end <= s@.len(),
                name@ == s@.subrange(start as int, t as int),
            decreases end - t,
        {
            name.push(s[t]);
            assert(name@ =~= s@.subrange(start as int, t + 1));
            t += 1;
        }
        name
    }

    /// The position after the last non-leading dot of `name`, or nothing.
    fn find_last_dot(name: &Vec<char>) -> (r: Option<usize>)
        ensures
            match r {
                Some(d) => 0 < d < name@.len() && last_dot(name@, name@.len() - 1) == d,
                None => last_dot(name@, name@.len() - 1) <= 0,
            },
    {
        if name.len() == 0 {
            return None;
        }
        let mut i: usize = name.len() - 1;
        while i > 0 && name[i] != '.'
            invariant
                i < name@.len(),
                last_dot(name@, name@.len() - 1) == last_dot(name@, i as int),
            decreases i,
        {
            proof {
                assert(last_dot(name@, i as int) == last_dot(name@, i - 1));
            }
            i -= 1;
        }
        if i > 0 {
            assert(last_dot(name@, i as int) == i);
            Some(i)
        } else {
            None
        }
    }

    /// The suffix of the name: its last non-leading dot and what follows.
    pub fn suffix(&self) -> (r: String)
        ensures
            r@ == suffix_spec(self@),
    {
        let name = self.name_chars();
        match Self::find_last_dot(&name) {
            Some(d) => {
                let mut out: Vec<char> = Vec::new();
                let mut t: usize = d;
                while t < name.len()
                    invariant
                        d <= t <= name@.len(),
                        out@ == name@.subrange(d as int, t as int),
                    decreases name@.len() - t,
                {
                    out.push(name[t]);
                    assert(out@ =~= name@.subrange(d as int, t + 1));
                    t += 1;
                }
                proof {
                    assert(out@ =~= name@.skip(d as int));
                }
                chars_to_string(&out)
            }
            None => String::new(),
        }
    }

    /// The stem of the name: everything before its last non-leading dot.
    pub fn stem(&self) -> (r: String)
        ensures
            r@ == stem_spec(self@),
    {
        let name = self.name_chars();
        match Self::find_last_dot(&name) {
            Some(d) => {
                let mut out: Vec<char> = Vec::new();
                let mut t: usize = 0;
                while t < d
                    invariant
                        t <= d <= name@.len(),
                        out@ == name@.take(t as int),
                    decreases d - t,
                {
                    out.push(name[t]);
                    assert(out@ =~= name@.take(t + 1));
                    t += 1;
                }
                chars_to_string(&out)
            }
            None => chars_to_string(&name),
        }
    }

    /// The dot-suffixes of the name, in order: the pieces after each dot.
    pub fn suffixes(&self) -> (r: Vec<String>)
        ensures
            ({
                let name = name_spec(self@);
                let pieces = split_spec(name, "."@);
                if name.len() == 0 || pieces.len() <= 1 {
                    r@.len() == 0
                } else {
                    r@.len() == pieces.len() - 1
                        && forall|k: int| 0 <= k < r@.len()
                            ==> (#[trigger] r@[k]@) == "."@ + pieces[k + 1]
                }
            }),
    {
        let name = self.name_chars();
        let mut out: Vec<String> = Vec::new();
        if name.len() == 0 {
            return out;
        }
        let mut dot: Vec<char> = Vec::new();
        dot.push('.');
        proof {
            reveal_strlit(".");
            assert(dot@ =~= "."@);
        }
        let pieces = split_chars(&name, &dot);
        let ghost gp = pieces@.map_values(|p: Vec<char>| p@);
        if pieces.len() <= 1 {
            return out;
        }
        let mut i: usize = 1;
        while i < pieces.len()
            invariant
                1 <= i <= pieces@.len(),
                gp == pieces@.map_values(|p: Vec<char>| p@),
                out@.len() == i - 1,
                forall|k: int| 0 <= k < out@.len() ==> (#[trigger] out@[k]@) == "."@ + gp[k + 1],
            decreases pieces@.len() - i,
        {
            let mut piece: Vec<char> = Vec::new();
            piece.push('.');
            crate::strutil::push_all(&mut piece, &pieces[i]);
            proof {
                reveal_strlit(".");
                assert(piece@ =~= "."@ + gp[i as int]);
            }
            out.push(chars_to_string(&piece));
            i += 1;
        }
        out
    }

    /// The path joined with another: an absolute other replaces this one.
    pub fn joinpath<P: AsStrLike>(&self, other: P) -> (r: PurePath)
        ensures
            r@ == join_paths_spec(self@, other.str_view()),
    {
        let o = str_to_chars(other.as_str_like());
        if (o.len() > 0 && o[0] == '/') || self.path.len() == 0 {
            return PurePath { path: o };
        }
        let mut out: Vec<char> = Vec::new();
        crate::strutil::push_all(&mut out, &self.path);
        if self.path[self.path.len() - 1] != '/' {
            out.push('/');
        }
        crate::strutil::push_all(&mut out, &o);
        proof {
            reveal_strlit("/");
            if self@.last() == '/' {
                assert(out@ =~= self@ + other.str_view());
            } else {
                assert(out@ =~= self@ + "/"@ + other.str_view());
            }
        }
        PurePath { path: out }
    }

    /// Whether the path's final component matches the glob pattern.
    pub fn match_pattern(&self, pattern: &str) -> (r: bool)
        requires
            self@.len() + pattern@.len() + 2 < usize::MAX,
        ensures
            r == glob_match_at(name_spec(self@), pattern@, 0, 0),
    {
        let name = self.name_chars();
        let name_s = chars_to_string(&name);
        crate::glob::match_glob(name_s.as_str(), pattern)
    }

    /// The path made relative to `other`: `other`'s text plus a separator
    /// must be a literal prefix; the rest is returned, else a value error.
    pub fn relative_to(&self, other: &PurePath) -> (r: Result<PurePath, PyException>)
        ensures
            match r {
                Ok(p) => (self@ == other@ && p@ == Seq::<char>::empty())
                    || (self@.len() > other@.len()
                        && self@.take(other@.len() as int) == other@
                        && (other@.len() == 0 || self@[other@.len() as int] == '/')
                        && p@ == self@.skip(
                            other@.len() as int + if other@.len() == 0 { 0int } else { 1int },
                        )),
                Err(e) => e.exception_type@ == "ValueError"@,
            },
    {
        if self.path.len() == other.path.len() {
            if crate::strutil::chars_eq(&self.path, &other.path) {
                return Ok(PurePath { path: Vec::new() });
            }
            return Err(value_error("Path is not relative to the given path"));
        }
        if self.path.len() < other.path.len() {
            return Err(value_error("Path is not relative to the given path"));
        }
        // other must be a literal prefix followed by a separator
        let mut i: usize = 0;
        while i < other.path.len()
            invariant
                i <= other.path@.len() <= self.path@.len(),
                forall|k: int| 0 <= k < i ==> self.path@[k] == other.path@[k],
            decreases other.path@.len() - i,
        {
            if self.path[i] != other.path[i] {
                return Err(value_error("Path is not relative to the given path"));
            }
            i += 1;
        }
        proof {
            assert(self@.take(other@.len() as int) =~= other@);
        }
        let skip_to: usize = if other.path.len() == 0 {
            0
        } else {
            if self.path[other.path.len()] != '/' {
                return Err(value_error("Path is not relative to the given path"));
            }
            other.path.len() + 1
        };
        let mut rest: Vec<char> = Vec::new();
        let mut t: usize = skip_to;
        while t < self.path.len()
            invariant
                skip_to <= t <= self.path@.len(),
                rest@ == self.path@.subrange(skip_to as int, t as int),
            decreases self.path@.len() - t,
        {
            rest.push(self.path[t]);
            assert(rest@ =~= self.path@.subrange(skip_to as int, t + 1));
            t += 1;
        }
        proof {
            assert(rest@ =~= self@.skip(skip_to as int));
        }
        Ok(PurePath { path: rest })
    }
}


/// How many separators sit at the end of `s`.
pub open spec fn trailing_sep(s: Seq<char>) -> int
    decreases s.len(),
{
    if s.len() == 0 || s.last() != '/' {
        0
    } else {
        1 + trailing_sep(s.drop_last())
    }
}

/// What `trailing_sep` counts: the longest all-separator suffix.
pub proof fn lemma_trailing_sep_props(s: Seq<char>)
    ensures
        0 <= trailing_sep(s) <= s.len(),
        forall|k: int| s.len() - trailing_sep(s) <= k < s.len() ==> s[k] == '/',
        trailing_sep(s) < s.len() ==> s[s.len() - trailing_sep(s) - 1] != '/',
    decreases s.len(),
{
    if s.len() > 0 && s.last() == '/' {
        lemma_trailing_sep_props(s.drop_last());
        assert forall|k: int| s.len() - trailing_sep(s) <= k < s.len()
            implies s[k] == '/' by {
            if k < s.len() - 1 {
                assert(s.drop_last()[k] == s[k]);
            }
        }
        if trailing_sep(s) < s.len() {
            assert(s.drop_last()[s.len() - trailing_sep(s) - 1]
                == s[s.len() - trailing_sep(s) - 1]);
        }
    }
}

/// The parent of a path: the text up to the start of the final component,
/// its own trailing separators dropped, the lone root kept.
pub open spec fn parent_spec(s: Seq<char>) -> Seq<char> {
    ({
        let e1 = s.len() - trailing_sep(s);
        if e1 == 0 {
            Seq::empty()
        } else {
            ({
                let e2 = e1 - crate::glob::trailing_non_sep(s.take(e1));
                let e3 = e2 - trailing_sep(s.take(e2));
                if e3 == 0 && s[0] == '/' {
                    seq!['/']
                } else {
                    s.take(e3)
                }
            })
        }
    })
}

/// Whether a path has a parent: some non-separator text remains.
pub open spec fn has_parent(s: Seq<char>) -> bool {
    s.len() - trailing_sep(s) > 0
}

impl PurePath {
    /// The parent path; a path of nothing but separators, or an empty one,
    /// has itself no name and yields the empty parent.
    pub fn parent(&self) -> (r: PurePath)
        ensures
            r@ == parent_spec(self@),
    {
        PurePath { path: self.parent_chars() }
    }

    /// The parent path's characters.
    fn parent_chars(&self) -> (r: Vec<char>)
        ensures
            r@ == parent_spec(self@),
    {
        let s = &self.path;
        proof {
            lemma_trailing_sep_props(s@);
        }
        // strip the trailing separators
        let mut e1: usize = s.len();
        while e1 > 0 && s[e1 - 1] == '/'
            invariant
                e1 <= s@.len(),
                forall|k: int| e1 <= k < s@.len() ==> s@[k] == '/',
            decreases e1,
        {
            e1 -= 1;
        }
        proof {
            if e1 < s@.len() - trailing_sep(s@) {
                assert(s@[e1 as int] == '/');
            }
            if e1 > s@.len() - trailing_sep(s@) {
                assert(s@[e1 - 1] == '/');
            }
            assert(e1 as int == s@.len() - trailing_sep(s@));
        }
        if e1 == 0 {
            return Vec::new();
        }
        // strip the final component
        let ghost cut1 = s@.take(e1 as int);
        proof {
            crate::glob::lemma_trailing_non_sep_pub(cut1);
        }
        let mut e2: usize = e1;
        while e2 > 0 && s[e2 - 1] != '/'
            invariant
                e2 <= e1 <= s@.len(),
                cut1 == s@.take(e1 as int),
                forall|k: int| e2 <= k < e1 ==> s@[k] != '/',
            decreases e2,
        {
            e2 -= 1;
        }
        proof {
            assert(forall|k: int| 0 <= k < cut1.len() ==> cut1[k] == s@[k]);
            let tns = crate::glob::trailing_non_sep(cut1);
            if (e2 as int) < e1 - tns {
                assert(cut1[e2 as int] != '/');
                assert(false);
            }
            if (e2 as int) > e1 - tns {
                assert(cut1[e2 - 1] == s@[e2 - 1]);
                assert(cut1[e2 - 1] != '/');
                assert(false);
            }
            assert(e2 as int == e1 - tns);
        }
        // strip the separators before it
        let ghost cut2 = s@.take(e2 as int);
        proof {
            lemma_trailing_sep_props(cut2);
        }
        let mut e3: usize = e2;
        while e3 > 0 && s[e3 - 1] == '/'
            invariant
                e3 <= e2 <= s@.len(),
                cut2 == s@.take(e2 as int),
                forall|k: int| e3 <= k < e2 ==> s@[k] == '/',
            decreases e3,
        {
            e3 -= 1;
        }
        proof {
            assert(forall|k: int| 0 <= k < cut2.len() ==> cut2[k] == s@[k]);
            let ts2 = trailing_sep(cut2);
            if (e3 as int) < e2 - ts2 {
                assert(cut2[e3 as int] == '/');
                assert(false);
            }
            if (e3 as int) > e2 - ts2 {
                assert(cut2[e3 - 1] != '/');
                assert(false);
            }
            assert(e3 as int == e2 - ts2);
        }
        if e3 == 0 && s.len() > 0 && s[0] == '/' {
            let mut root: Vec<char> = Vec::new();
            root.push('/');
            proof {
                assert(root@ =~= seq!['/']);
            }
            return root;
        }
        let mut out: Vec<char> = Vec::new();
        let mut t: usize = 0;
        while t < e3
            invariant
                t <= e3 <= s@.len(),
                out@ == s@.take(t as int),
            decreases e3 - t,
        {
            out.push(s[t]);
            assert(out@ =~= s@.take(t + 1));
            t += 1;
        }
        out
    }

    /// Every ancestor, nearest first, ending at the path with no parent of
    /// its own (the empty path, or the bare root).
    pub fn parents(&self) -> (r: Vec<PurePath>)
        ensures
            r@.len() == 0 <==> !has_parent(self@),
            r@.len() > 0 ==> r@[0]@ == parent_spec(self@),
            forall|k: int| 1 <= k < r@.len()
                ==> (#[trigger] r@[k])@ == parent_spec(r@[k - 1]@),
            r@.len() > 0 ==> !has_parent(r@[r@.len() - 1]@),
    {
        let mut out: Vec<PurePath> = Vec::new();
        let mut cur: Vec<char> = self.copy_chars();
        proof {
            lemma_trailing_sep_props(self@);
        }
        let mut keep = has_parent_exec(&cur);
        while keep
            invariant
                keep == has_parent(cur@),
                cur@ == if out@.len() == 0 {
                    self@
                } else {
                    out@[out@.len() - 1]@
                },
                out@.len() > 0 ==> out@[0]@ == parent_spec(self@),
                forall|k: int| 1 <= k < out@.len()
                    ==> (#[trigger] out@[k])@ == parent_spec(out@[k - 1]@),
                out@.len() > 0 ==> has_parent(self@),
            decreases cur@.len(),
        {
            proof {
                lemma_parent_shorter(cur@);
            }
            let p = PurePath { path: cur.clone() }.parent_chars();
            let ghost pview = p@;
            out.push(PurePath { path: p });
            let last = &out[out.len() - 1];
            cur = last.copy_chars_of();
            proof {
                assert(cur@ == pview);
            }
            keep = has_parent_exec(&cur);
        }
        out
    }

    /// A copy of the path's characters.
    fn copy_chars(&self) -> (r: Vec<char>)
        ensures
            r@ == self@,
    {
        self.copy_chars_of()
    }

    /// A copy of the path's characters.
    fn copy_chars_of(&self) -> (r: Vec<char>)
        ensures
            r@ == self@,
    {
        let mut out: Vec<char> = Vec::new();
        let mut t: usize = 0;
        while t < self.path.len()
            invariant
                t <= self.path@.len(),
                out@ == self.path@.take(t as int),
            decreases self.path@.len() - t,
        {
            out.push(self.path[t]);
            assert(out@ =~= self.path@.take(t + 1));
            t += 1;
        }
        assert(self.path@.take(self.path@.len() as int) =~= self.path@);
        out
    }

    /// The path with its final component replaced by `name`.
    pub fn with_name<S: AsStrLike>(&self, name: S) -> (r: PurePath)
        ensures
            r@ == with_name_spec(self@, name.str_view()),
    {
        let par = self.parent_chars();
        let name_chars = str_to_chars(name.as_str_like());
        let mut out: Vec<char> = Vec::new();
        if par.len() == 0 {
            if self.path.len() > 0 && self.path[0] == '/' {
                out.push('/');
            }
            crate::strutil::push_all(&mut out, &name_chars);
            proof {
                reveal_strlit("/");
                if is_abs_spec(self@) {
                    assert(out@ =~= "/"@ + name.str_view());
                } else {
                    assert(out@ =~= name.str_view());
                }
            }
        } else if par.len() == 1 && par[0] == '/' {
            out.push('/');
            crate::strutil::push_all(&mut out, &name_chars);
            proof {
                reveal_strlit("/");
                assert(par@ =~= seq!['/']);
                assert(out@ =~= "/"@ + name.str_view());
            }
        } else {
            crate::strutil::push_all(&mut out, &par);
            out.push('/');
            crate::strutil::push_all(&mut out, &name_chars);
            proof {
                reveal_strlit("/");
                assert(par@ != seq!['/']);
                assert(out@ =~= par@ + "/"@ + name.str_view());
            }
        }
        PurePath { path: out }
    }

    /// The path with its name's suffix replaced: an empty suffix drops it,
    /// one starting with a dot is appended to the stem, any other is
    /// joined to the stem with a dot.
    pub fn with_suffix<S: AsStrLike>(&self, suffix: S) -> (r: PurePath)
        ensures
            r@ == with_name_spec(self@, new_name_spec(stem_spec(self@), suffix.str_view())),
    {
        let stem = self.stem();
        let sfx = str_to_chars(suffix.as_str_like());
        let mut new_name: Vec<char> = str_to_chars(stem.as_str());
        if sfx.len() == 0 {
        } else if sfx[0] == '.' {
            crate::strutil::push_all(&mut new_name, &sfx);
        } else {
            new_name.push('.');
            crate::strutil::push_all(&mut new_name, &sfx);
        }
        proof {
            if suffix.str_view().len() == 0 {
                assert(new_name@ =~= new_name_spec(stem_spec(self@), suffix.str_view()));
            } else if suffix.str_view()[0] == '.' {
                assert(new_name@ =~= stem_spec(self@) + suffix.str_view());
            } else {
                assert(new_name@ =~= stem_spec(self@) + seq!['.'] + suffix.str_view());
            }
        }
        let name_s = chars_to_string(&new_name);
        self.with_name(name_s.as_str())
    }
}

/// The replaced name joined behind the parent.
pub open spec fn with_name_spec(s: Seq<char>, name: Seq<char>) -> Seq<char> {
    ({
        let par = parent_spec(s);
        if par.len() == 0 {
            if is_abs_spec(s) {
                "/"@ + name
            } else {
                name
            }
        } else if par == seq!['/'] {
            "/"@ + name
        } else {
            par + "/"@ + name
        }
    })
}

/// The new name a suffix replacement produces from a stem.
pub open spec fn new_name_spec(stem: Seq<char>, suffix: Seq<char>) -> Seq<char> {
    if suffix.len() == 0 {
        stem
    } else if suffix[0] == '.' {
        stem + suffix
    } else {
        stem + seq!['.'] + suffix
    }
}

/// Exec test of `has_parent`.
fn has_parent_exec(s: &Vec<char>) -> (r: bool)
    ensures
        r == has_parent(s@),
{
    proof {
        lemma_trailing_sep_props(s@);
    }
    let mut e1: usize = s.len();
    while e1 > 0 && s[e1 - 1] == '/'
        invariant
            e1 <= s@.len(),
            forall|k: int| e1 <= k < s@.len() ==> s@[k] == '/',
        decreases e1,
    {
        e1 -= 1;
    }
    proof {
        if e1 < s@.len() - trailing_sep(s@) {
            assert(s@[e1 as int] == '/');
        }
        if e1 > s@.len() - trailing_sep(s@) {
            assert(s@[e1 - 1] == '/');
        }
        assert(e1 as int == s@.len() - trailing_sep(s@));
    }
    e1 > 0
}

/// A path with a parent has a strictly shorter parent.
proof fn lemma_parent_shorter(s: Seq<char>)
    requires
        has_parent(s),
    ensures
        parent_spec(s).len() < s.len(),
{
    lemma_trailing_sep_props(s);
    let e1 = s.len() - trailing_sep(s);
    let cut1 = s.take(e1);
    crate::glob::lemma_trailing_non_sep_pub(cut1);
    assert(cut1.last() == s[e1 - 1]);
    assert(cut1.last() != '/');
    assert(crate::glob::trailing_non_sep(cut1) >= 1);
    let e2 = e1 - crate::glob::trailing_non_sep(cut1);
    let cut2 = s.take(e2);
    lemma_trailing_sep_props(cut2);
    let e3 = e2 - trailing_sep(cut2);
    if e3 == 0 && s.len() > 0 && s[0] == '/' {
        // the lone root: the original held the root and a name after it
        assert(trailing_sep(cut1) == 0);
        if e1 < 2 {
            assert(cut1[0] == s[0]);
            assert(cut1.last() == '/');
        }
        assert(e1 >= 2);
    }
}

/// Build a pure path.
pub fn pure_path<P: AsStrLike>(path: P) -> (r: PurePath)
    ensures
        r@ == path.str_view(),
{
    PurePath::new(path)
}

} // verus!
