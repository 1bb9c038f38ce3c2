//! Shell-style pattern matching: `*`, `?`, character classes and brace
//! alternatives, plus the helpers that classify and escape pattern text.
//!
//! The filesystem walk that expands a pattern against directories is I/O
//! and lives with the embedding program; the matching logic itself is here.

use vstd::prelude::*;
use crate::caps::AsStrLike;

verus! {

/// `x` clamped to be non-negative, for termination measures.
pub open spec fn clamp0(x: int) -> int {
    if x > 0 {
        x
    } else {
        0
    }
}

} // verus!
use crate::strutil::chars_to_string;
use crate::strutil::str_to_chars;

verus! {

/// Scan a character class body: ranges like `a-z`, single characters, and
/// the closing bracket.  Yields whether the character matched and the
/// position after the class, or nothing for an unterminated class.
pub open spec fn class_scan(
    c: char,
    p: Seq<char>,
    idx: int,
    negated: bool,
    matched: bool,
) -> Option<(bool, int)>
    decreases p.len() - idx,
{
    if idx < 0 || idx >= p.len() {
        None
    } else if p[idx] == ']' {
        Some((if negated { !matched } else { matched }, idx + 1))
    } else if idx + 2 < p.len() && p[idx + 1] == '-' {
        class_scan(c, p, idx + 3, negated, matched || (p[idx] <= c && c <= p[idx + 2]))
    } else {
        class_scan(c, p, idx + 1, negated, matched || p[idx] == c)
    }
}

/// What matching `c` against the class starting at `start` yields: the
/// verdict and the position after the closing bracket.
pub open spec fn char_class_spec(c: char, p: Seq<char>, start: int) -> Option<(bool, int)> {
    if start < 0 || start >= p.len() || p[start] != '[' {
        None
    } else if start + 1 >= p.len() {
        None
    } else if p[start + 1] == '!' {
        if start + 2 >= p.len() {
            None
        } else {
            class_scan(c, p, start + 2, true, false)
        }
    } else {
        class_scan(c, p, start + 1, false, false)
    }
}

/// A successful class scan ends inside the pattern, after where it began.
pub proof fn lemma_class_scan_bounds(c: char, p: Seq<char>, idx: int, negated: bool, matched: bool)
    requires
        0 <= idx,
    ensures
        match class_scan(c, p, idx, negated, matched) {
            Some(r) => idx < r.1 <= p.len(),
            None => true,
        },
    decreases p.len() - idx,
{
    if 0 <= idx < p.len() && p[idx] != ']' {
        if idx + 2 < p.len() && p[idx + 1] == '-' {
            lemma_class_scan_bounds(c, p, idx + 3, negated, matched || (p[idx] <= c && c
                <= p[idx + 2]));
        } else {
            lemma_class_scan_bounds(c, p, idx + 1, negated, matched || p[idx] == c);
        }
    }
}

/// Exec form of `class_scan`.
fn class_scan_exec(c: char, p: &Vec<char>, idx: usize, negated: bool, matched: bool) -> (r:
    Option<(bool, usize)>)
    ensures
        match r {
            Some(v) => class_scan(c, p@, idx as int, negated, matched)
                == Some((v.0, v.1 as int)),
            None => class_scan(c, p@, idx as int, negated, matched) is None,
        },
    decreases p@.len() - idx,
{
    if idx >= p.len() {
        None
    } else if p[idx] == ']' {
        Some((if negated { !matched } else { matched }, idx + 1))
    } else if p.len() - idx > 2 && p[idx + 1] == '-' {
        class_scan_exec(c, p, idx + 3, negated, matched || (p[idx] <= c && c <= p[idx + 2]))
    } else {
        class_scan_exec(c, p, idx + 1, negated, matched || p[idx] == c)
    }
}

/// Match one character against the class `[...]` beginning at `start`
/// (`[!...]` negates); yields the verdict and the position after the
/// class, or nothing when the class never closes.
pub fn match_char_class(ch: char, pattern: &[char], start_idx: usize) -> (r: Option<(bool, usize)>)
    ensures
        match r {
            Some(v) => char_class_spec(ch, pattern@, start_idx as int)
                == Some((v.0, v.1 as int)),
            None => char_class_spec(ch, pattern@, start_idx as int) is None,
        },
{
    if start_idx >= pattern.len() || pattern[start_idx] != '[' {
        return None;
    }
    let mut idx = start_idx + 1;
    if idx >= pattern.len() {
        return None;
    }
    let negated = pattern[idx] == '!';
    if negated {
        idx += 1;
        if idx >= pattern.len() {
            return None;
        }
    }
    let p: Vec<char> = vstd::slice::slice_to_vec(pattern);
    assert(p@ == pattern@);
    class_scan_exec(ch, &p, idx, negated, false)
}

/// Scan the body of a `{a,b,c}` alternative group: nested braces stay in
/// the current alternative, a top-level comma ends one, the closing brace
/// ends the group.  Each alternative is paired with the position after the
/// group's closing brace as the scanner records it.
pub open spec fn brace_scan(
    p: Seq<char>,
    idx: int,
    depth: int,
    cur: Seq<char>,
    acc: Seq<(Seq<char>, int)>,
) -> Option<Seq<(Seq<char>, int)>>
    decreases p.len() - idx,
{
    if idx < 0 || idx >= p.len() {
        None
    } else if p[idx] == '{' {
        brace_scan(p, idx + 1, depth + 1, cur.push('{'), acc)
    } else if p[idx] == '}' {
        if depth == 1 {
            let acc2 = acc.push((cur, idx + 1));
            Some(acc2)
        } else {
            brace_scan(p, idx + 1, depth - 1, cur.push('}'), acc)
        }
    } else if p[idx] == ',' && depth == 1 {
        brace_scan(p, idx + 1, depth, Seq::empty(), acc.push((cur, idx + 1)))
    } else {
        brace_scan(p, idx + 1, depth, cur.push(p[idx]), acc)
    }
}

/// The alternatives of a brace group beginning at `start`, if it is one.
pub open spec fn brace_alts_spec(p: Seq<char>, start: int) -> Option<Seq<(Seq<char>, int)>> {
    if 0 <= start < p.len() && p[start] == '{' {
        brace_scan(p, start + 1, 1, Seq::empty(), Seq::empty())
    } else {
        None
    }
}

/// Every alternative a brace scan yields is shorter than the text scanned,
/// and its recorded end position lies within the pattern and after `base`.
pub proof fn lemma_brace_scan_bounds(
    p: Seq<char>,
    idx: int,
    depth: int,
    cur: Seq<char>,
    acc: Seq<(Seq<char>, int)>,
    base: int,
)
    requires
        0 <= base,
        base + 1 <= idx,
        cur.len() <= idx - base - 1,
        forall|k: int| 0 <= k < acc.len()
            ==> (#[trigger] acc[k].0.len()) <= acc[k].1 - base - 2 && base + 1 < acc[k].1 <= p.len(),
    ensures
        match brace_scan(p, idx, depth, cur, acc) {
            Some(alts) => forall|k: int| 0 <= k < alts.len()
                ==> (#[trigger] alts[k].0.len()) <= alts[k].1 - base - 2
                    && base + 1 < alts[k].1 <= p.len(),
            None => true,
        },
    decreases p.len() - idx,
{
    if 0 <= idx && idx < p.len() {
        if p[idx] == '{' {
            lemma_brace_scan_bounds(p, idx + 1, depth + 1, cur.push('{'), acc, base);
        } else if p[idx] == '}' {
            if depth == 1 {
                assert forall|k: int| 0 <= k < acc.push((cur, idx + 1)).len()
                    implies (#[trigger] acc.push((cur, idx + 1))[k].0.len())
                        <= acc.push((cur, idx + 1))[k].1 - base - 2
                        && base + 1 < acc.push((cur, idx + 1))[k].1 <= p.len() by {
                    if k < acc.len() {
                        assert(acc.push((cur, idx + 1))[k] == acc[k]);
                    } else {
                        assert(acc.push((cur, idx + 1))[k] == (cur, idx + 1));
                    }
                }
            } else {
                lemma_brace_scan_bounds(p, idx + 1, depth - 1, cur.push('}'), acc, base);
            }
        } else if p[idx] == ',' && depth == 1 {
            let acc2 = acc.push((cur, idx + 1));
            assert forall|k: int| 0 <= k < acc2.len()
                implies (#[trigger] acc2[k].0.len()) <= acc2[k].1 - base - 2
                    && base + 1 < acc2[k].1 <= p.len() by {
                if k < acc.len() {
                    assert(acc2[k] == acc[k]);
                } else {
                    assert(acc2[k] == (cur, idx + 1));
                }
            }
            lemma_brace_scan_bounds(p, idx + 1, depth, Seq::empty(), acc2, base);
        } else {
            lemma_brace_scan_bounds(p, idx + 1, depth, cur.push(p[idx]), acc, base);
        }
    }
}

/// Exec form of `brace_scan`.
fn brace_scan_exec(
    p: &Vec<char>,
    idx: usize,
    depth: usize,
    cur: Vec<char>,
    acc: Vec<(Vec<char>, usize)>,
) -> (r: Option<Vec<(Vec<char>, usize)>>)
    requires
        depth >= 1,
        depth <= idx,
        p@.len() + 1 < usize::MAX,
    ensures
        match r {
            Some(alts) => {
                &&& brace_scan(p@, idx as int, depth as int, cur@, acc@.map_values(
                    |kv: (Vec<char>, usize)| (kv.0@, kv.1 as int),
                )) matches Some(galts)
                &&& galts == alts@.map_values(|kv: (Vec<char>, usize)| (kv.0@, kv.1 as int))
            },
            None => brace_scan(p@, idx as int, depth as int, cur@, acc@.map_values(
                |kv: (Vec<char>, usize)| (kv.0@, kv.1 as int),
            )) is None,
        },
    decreases p@.len() - idx,
{
    if idx >= p.len() {
        return None;
    }
    let c = p[idx];
    if c == '{' {
        let mut cur2 = cur;
        cur2.push('{');
        brace_scan_exec(p, idx + 1, depth + 1, cur2, acc)
    } else if c == '}' {
        if depth == 1 {
            let mut acc2 = acc;
            let ghost acc_before = acc2@;
            acc2.push((cur, idx + 1));
            proof {
                assert(acc2@.map_values(|kv: (Vec<char>, usize)| (kv.0@, kv.1 as int))
                    =~= acc_before.map_values(|kv: (Vec<char>, usize)| (kv.0@, kv.1 as int))
                        .push((acc2@.last().0@, acc2@.last().1 as int)));
            }
            Some(acc2)
        } else {
            let mut cur2 = cur;
            cur2.push('}');
            brace_scan_exec(p, idx + 1, depth - 1, cur2, acc)
        }
    } else if c == ',' && depth == 1 {
        let mut acc2 = acc;
        let ghost acc_before = acc2@;
        acc2.push((cur, idx + 1));
        proof {
            assert(acc2@.map_values(|kv: (Vec<char>, usize)| (kv.0@, kv.1 as int))
                =~= acc_before.map_values(|kv: (Vec<char>, usize)| (kv.0@, kv.1 as int))
                    .push((acc2@.last().0@, acc2@.last().1 as int)));
        }
        brace_scan_exec(p, idx + 1, depth, Vec::new(), acc2)
    } else {
        let mut cur2 = cur;
        cur2.push(c);
        brace_scan_exec(p, idx + 1, depth, cur2, acc)
    }
}

/// Parse a `{a,b,c}` group beginning at `start_idx` into its alternatives,
/// each with the position after the group.
pub fn parse_brace_expansion(pattern: &[char], start_idx: usize) -> (r: Option<
    Vec<(Vec<char>, usize)>,
>)
    requires
        pattern@.len() + 1 < usize::MAX,
    ensures
        match r {
            Some(alts) => {
                &&& brace_alts_spec(pattern@, start_idx as int) matches Some(galts)
                &&& galts == alts@.map_values(|kv: (Vec<char>, usize)| (kv.0@, kv.1 as int))
            },
            None => brace_alts_spec(pattern@, start_idx as int) is None,
        },
{
    if start_idx >= pattern.len() || pattern[start_idx] != '{' {
        return None;
    }
    let p: Vec<char> = vstd::slice::slice_to_vec(pattern);
    assert(p@ == pattern@);
    let r = brace_scan_exec(&p, start_idx + 1, 1, Vec::new(), Vec::new());
    proof {
        assert(Seq::<(Vec<char>, usize)>::empty().map_values(
            |kv: (Vec<char>, usize)| (kv.0@, kv.1 as int),
        ) =~= Seq::<(Seq<char>, int)>::empty());
    }
    r
}

/// Whether the pattern from `pi` on matches the text from `ti` on.
///
/// `*` matches any run, `?` one character, `[...]` a class, `{a,b}` tries
/// each alternative against the rest of the text and then charges the
/// alternative's length against the text, and any other character matches
/// itself.
pub open spec fn glob_match_at(text: Seq<char>, pattern: Seq<char>, ti: int, pi: int) -> bool
    decreases clamp0(text.len() - ti), clamp0(pattern.len() - pi) + 1, 1int, 0int,
{
    if pi < 0 || ti < 0 {
        false
    } else if pi >= pattern.len() {
        ti >= text.len()
    } else if ti >= text.len() {
        forall|k: int| pi <= k < pattern.len() ==> pattern[k] == '*'
    } else if pattern[pi] == '*' {
        glob_match_at(text, pattern, ti, pi + 1) || glob_match_at(text, pattern, ti + 1, pi)
    } else if pattern[pi] == '?' {
        glob_match_at(text, pattern, ti + 1, pi + 1)
    } else if pattern[pi] == '[' {
        match char_class_spec(text[ti], pattern, pi) {
            Some(v) => if v.0 && pi < v.1 <= pattern.len() {
                glob_match_at(text, pattern, ti + 1, v.1)
            } else {
                false
            },
            None => false,
        }
    } else if pattern[pi] == '{' {
        match brace_alts_spec(pattern, pi) {
            Some(alts) => glob_match_alts(text, pattern, alts, 0, ti, pi),
            None => if text[ti] == '{' {
                glob_match_at(text, pattern, ti + 1, pi + 1)
            } else {
                false
            },
        }
    } else {
        if text[ti] == pattern[pi] {
            glob_match_at(text, pattern, ti + 1, pi + 1)
        } else {
            false
        }
    }
}

/// Whether some alternative from `k` on matches: the alternative must
/// match the rest of the text, and the pattern after the group must match
/// the text advanced by the alternative's length.
pub open spec fn glob_match_alts(
    text: Seq<char>,
    pattern: Seq<char>,
    alts: Seq<(Seq<char>, int)>,
    k: int,
    ti: int,
    pi: int,
) -> bool
    decreases clamp0(text.len() - ti), clamp0(pattern.len() - pi) + 1, 0int, clamp0(alts.len() - k),
{
    if k < 0 || k >= alts.len() || ti < 0 || pi < 0 {
        false
    } else {
        ({
            let alt = alts[k].0;
            let next = alts[k].1;
            let this_one = if ti < text.len() && alt.len() <= pattern.len() - pi - 2 && pi + 1
                < next <= pattern.len() {
                glob_match_at(text, alt, ti, 0) && glob_match_at(text, pattern, ti + alt.len(), next)
            } else {
                false
            };
            this_one || glob_match_alts(text, pattern, alts, k + 1, ti, pi)
        })
    }
}

/// Exec form of `glob_match_at`.
fn glob_match_exec(text: &Vec<char>, pattern: &Vec<char>, ti: usize, pi: usize) -> (r: bool)
    requires
        text@.len() + pattern@.len() + 2 < usize::MAX,
    ensures
        r == glob_match_at(text@, pattern@, ti as int, pi as int),
    decreases clamp0(text@.len() - ti), clamp0(pattern@.len() - pi) + 1, 1int, 0int,
{
    if pi >= pattern.len() {
        return ti >= text.len();
    }
    if ti >= text.len() {
        let mut k = pi;
        while k < pattern.len() && pattern[k] == '*'
            invariant
                pi <= k <= pattern@.len(),
                pattern@.len() <= usize::MAX,
                forall|t: int| pi <= t < k ==> pattern@[t] == '*',
            decreases pattern@.len() - k,
        {
            k += 1;
        }
        return k >= pattern.len();
    }
    let pc = pattern[pi];
    if pc == '*' {
        glob_match_exec(text, pattern, ti, pi + 1) || glob_match_exec(text, pattern, ti + 1, pi)
    } else if pc == '?' {
        glob_match_exec(text, pattern, ti + 1, pi + 1)
    } else if pc == '[' {
        match match_char_class(text[ti], pattern.as_slice(), pi) {
            Some((matched, next)) => {
                proof {
                    if pattern@[pi as int] == '[' {
                        lemma_class_scan_bounds(
                            text@[ti as int],
                            pattern@,
                            if pattern@[pi + 1] == '!' { pi + 2 } else { pi + 1 },
                            pattern@[pi + 1] == '!',
                            false,
                        );
                    }
                }
                if matched {
                    glob_match_exec(text, pattern, ti + 1, next)
                } else {
                    false
                }
            }
            None => false,
        }
    } else if pc == '{' {
        match parse_brace_expansion(pattern.as_slice(), pi) {
            Some(alts) => {
                proof {
                    lemma_brace_scan_bounds(
                        pattern@,
                        pi + 1,
                        1,
                        Seq::empty(),
                        Seq::empty(),
                        pi as int,
                    );
                    let galts = alts@.map_values(|kv: (Vec<char>, usize)| (kv.0@, kv.1 as int));
                    assert forall|u: int| 0 <= u < alts@.len()
                        implies (#[trigger] alts@[u].0@.len()) <= alts@[u].1 - pi - 2
                            && pi + 1 < alts@[u].1 <= pattern@.len() by {
                        assert(galts[u] == (alts@[u].0@, alts@[u].1 as int));
                        assert(galts[u].0.len() <= galts[u].1 - pi - 2);
                    }
                }
                glob_match_alts_exec(text, pattern, &alts, 0, ti, pi)
            }
            None => {
                if text[ti] == '{' {
                    glob_match_exec(text, pattern, ti + 1, pi + 1)
                } else {
                    false
                }
            }
        }
    } else {
        if text[ti] == pc {
            glob_match_exec(text, pattern, ti + 1, pi + 1)
        } else {
            false
        }
    }
}

/// Exec form of `glob_match_alts`.
fn glob_match_alts_exec(
    text: &Vec<char>,
    pattern: &Vec<char>,
    alts: &Vec<(Vec<char>, usize)>,
    k: usize,
    ti: usize,
    pi: usize,
) -> (r: bool)
    requires
        text@.len() + pattern@.len() + 2 < usize::MAX,
        forall|t: int| 0 <= t < alts@.len()
            ==> (#[trigger] alts@[t].0@.len()) <= alts@[t].1 - pi - 2
                && pi + 1 < alts@[t].1 <= pattern@.len(),
    ensures
        r == glob_match_alts(
            text@,
            pattern@,
            alts@.map_values(|kv: (Vec<char>, usize)| (kv.0@, kv.1 as int)),
            k as int,
            ti as int,
            pi as int,
        ),
    decreases clamp0(text@.len() - ti), clamp0(pattern@.len() - pi) + 1, 0int,
        clamp0(alts@.len() - k),
{
    let ghost galts = alts@.map_values(|kv: (Vec<char>, usize)| (kv.0@, kv.1 as int));
    if k >= alts.len() {
        return false;
    }
    let alt = &alts[k].0;
    let next = alts[k].1;
    assert(galts[k as int] == (alt@, next as int));
    let this_one = if ti < text.len() && alt.len() <= pattern.len() - pi - 2 && pi + 1 < next
        && next <= pattern.len() {
        glob_match_exec(text, alt, ti, 0) && glob_match_exec(text, pattern, ti + alt.len(), next)
    } else {
        false
    };
    if this_one {
        true
    } else {
        glob_match_alts_exec(text, pattern, alts, k + 1, ti, pi)
    }
}

/// Whether the whole text matches the whole pattern.
pub fn match_glob<T: AsStrLike, P: AsStrLike>(text: T, pattern: P) -> (r: bool)
    requires
        text.str_view().len() + pattern.str_view().len() + 2 < usize::MAX,
    ensures
        r == glob_match_at(text.str_view(), pattern.str_view(), 0, 0),
{
    let t = str_to_chars(text.as_str_like());
    let p = str_to_chars(pattern.as_str_like());
    glob_match_exec(&t, &p, 0, 0)
}

/// The glob metacharacters, escaped with a backslash.
pub open spec fn escape_char(c: char) -> Seq<char> {
    if c == '*' || c == '?' || c == '[' || c == ']' || c == '{' || c == '}' {
        seq!['\\', c]
    } else {
        seq![c]
    }
}

/// `s` with every metacharacter escaped.
pub open spec fn escape_spec(s: Seq<char>) -> Seq<char>
    decreases s.len(),
{
    if s.len() == 0 {
        Seq::empty()
    } else {
        escape_char(s[0]) + escape_spec(s.skip(1))
    }
}

/// Escape the glob metacharacters of a pathname.
pub fn escape<P: AsStrLike>(pathname: P) -> (r: String)
    ensures
        r@ == escape_spec(pathname.str_view()),
{
    let s = str_to_chars(pathname.as_str_like());
    let mut out: Vec<char> = Vec::new();
    let mut i: usize = 0;
    proof {
        assert(s@.skip(0) =~= s@);
        assert(Seq::<char>::empty() + escape_spec(s@) =~= escape_spec(s@));
    }
    while i < s.len()
        invariant
            i <= s@.len(),
            out@ + escape_spec(s@.skip(i as int)) == escape_spec(s@),
        decreases s@.len() - i,
    {
        let ghost rest = s@.skip(i as int);
        proof {
            assert(rest[0] == s@[i as int]);
            assert(rest.skip(1) =~= s@.skip(i + 1));
        }
        let c = s[i];
        if c == '*' || c == '?' || c == '[' || c == ']' || c == '{' || c == '}' {
            out.push('\\');
            out.push(c);
        } else {
            out.push(c);
        }
        proof {
            assert(out@ + escape_spec(s@.skip(i + 1)) =~= escape_spec(s@));
        }
        i += 1;
    }
    proof {
        assert(s@.skip(s@.len() as int) =~= Seq::<char>::empty());
        assert(out@ =~= escape_spec(s@));
    }
    chars_to_string(&out)
}

/// Whether `c` would be special in a pattern.
pub open spec fn is_magic_char(c: char) -> bool {
    c == '*' || c == '?' || c == '[' || c == '{'
}

/// Whether the pathname holds any glob metacharacter.
pub fn has_magic<P: AsStrLike>(pathname: P) -> (r: bool)
    ensures
        r == exists|i: int| 0 <= i < pathname.str_view().len()
            && is_magic_char(#[trigger] pathname.str_view()[i]),
{
    let s = str_to_chars(pathname.as_str_like());
    let mut i: usize = 0;
    while i < s.len()
        invariant
            i <= s@.len(),
            s@ == pathname.str_view(),
            forall|k: int| 0 <= k < i ==> !is_magic_char(#[trigger] s@[k]),
        decreases s@.len() - i,
    {
        let c = s[i];
        if c == '*' || c == '?' || c == '[' || c == '{' {
            return true;
        }
        i += 1;
    }
    false
}

/// The component of a path after its last separator.
pub open spec fn last_component(s: Seq<char>) -> Seq<char>
    decreases s.len(),
{
    if s.len() == 0 {
        s
    } else if s.last() == '/' {
        last_component(s.drop_last())
    } else {
        ({
            let cut = s.len() - 1 - trailing_non_sep(s);
            s.skip(cut + 1)
        })
    }
}

/// How many characters at the end of `s` are not separators.
pub open spec fn trailing_non_sep(s: Seq<char>) -> int
    decreases s.len(),
{
    if s.len() == 0 || s.last() == '/' {
        0
    } else {
        1 + trailing_non_sep(s.drop_last())
    }
}

/// Whether the path names a hidden file: its final component begins with a
/// dot and is neither `.` nor `..`.
pub open spec fn is_hidden_spec(s: Seq<char>) -> bool {
    ({
        let name = last_component(s);
        name.len() > 0 && name[0] == '.' && name != "."@ && name != ".."@
    })
}

/// Whether the pathname names a hidden file.
pub fn is_hidden<P: AsStrLike>(pathname: P) -> (r: bool)
    ensures
        r == is_hidden_spec(pathname.str_view()),
{
    let s = str_to_chars(pathname.as_str_like());
    // drop trailing separators
    let mut end: usize = s.len();
    proof {
        assert(s@.take(s@.len() as int) =~= s@);
    }
    while end > 0 && s[end - 1] == '/'
        invariant
            end <= s@.len(),
            forall|k: int| end <= k < s@.len() ==> s@[k] == '/',
            last_component(s@) == last_component(s@.take(end as int)),
        decreases end,
    {
        proof {
            assert(s@.take(end as int).drop_last() =~= s@.take(end - 1));
        }
        end -= 1;
    }
    // find the start of the final component
    let mut start: usize = end;
    while start > 0 && s[start - 1] != '/'
        invariant
            start <= end <= s@.len(),
            forall|k: int| end <= k < s@.len() ==> s@[k] == '/',
            forall|k: int| start <= k < end ==> s@[k] != '/',
            last_component(s@) == last_component(s@.take(end as int)),
        decreases start,
    {
        start -= 1;
    }
    let ghost cut = s@.take(end as int);
    proof {
        lemma_trailing_non_sep_count(cut);
        if end > 0 {
            assert(cut.last() == s@[end - 1]);
            assert(cut.last() != '/');
            // trailing_non_sep(cut) counts exactly end - start
            lemma_trailing_count_eq(cut, (end - start) as int);
            assert(last_component(cut) =~= s@.subrange(start as int, end as int));
        } else {
            assert(cut.len() == 0);
            assert(last_component(cut) =~= s@.subrange(start as int, end as int));
        }
    }
    let mut name: Vec<char> = Vec::new();
    let mut t: usize = start;
    while t < end
        invariant
            start <= t <= end <= s@.len(),
            name@ == s@.subrange(start as int, t as int),
        decreases end - t,
    {
        name.push(s[t]);
        assert(name@ =~= s@.subrange(start as int, t + 1));
        t += 1;
    }
    proof {
        reveal_strlit(".");
        reveal_strlit("..");
    }
    if name.len() == 0 {
        return false;
    }
    if name[0] != '.' {
        return false;
    }
    if name.len() == 1 {
        // exactly "."
        proof {
            assert(name@ =~= "."@);
        }
        return false;
    }
    if name.len() == 2 && name[1] == '.' {
        proof {
            assert(name@ =~= ".."@);
        }
        return false;
    }
    proof {
        assert(name@ != "."@ && name@ != ".."@);
    }
    true
}

/// With no trailing separators, the last component is the last `n`
/// characters, where the run of `n` non-separators is bounded by a
/// separator or the start.
pub proof fn lemma_last_component_cut(cut: Seq<char>, n: int)
    requires
        0 <= n <= cut.len(),
        forall|k: int| cut.len() - n <= k < cut.len() ==> cut[k] != '/',
        n < cut.len() ==> cut[cut.len() - n - 1] == '/',
        cut.len() > 0 ==> cut.last() != '/',
    ensures
        last_component(cut) == cut.skip(cut.len() - n),
{
    if cut.len() == 0 {
        assert(cut.skip(0) =~= cut);
    } else {
        lemma_trailing_count_eq(cut, n);
    }
}

/// What `trailing_non_sep` counts: a run of non-separators at the end.
pub proof fn lemma_trailing_non_sep_pub(s: Seq<char>)
    ensures
        0 <= trailing_non_sep(s) <= s.len(),
        forall|k: int| s.len() - trailing_non_sep(s) <= k < s.len() ==> s[k] != '/',
        trailing_non_sep(s) < s.len() ==> s[s.len() - trailing_non_sep(s) - 1] == '/',
{
    lemma_trailing_non_sep_count(s);
}

/// `trailing_non_sep` never exceeds the length.
proof fn lemma_trailing_non_sep_count(s: Seq<char>)
    ensures
        0 <= trailing_non_sep(s) <= s.len(),
        forall|k: int| s.len() - trailing_non_sep(s) <= k < s.len() ==> s[k] != '/',
        trailing_non_sep(s) < s.len() ==> s[s.len() - trailing_non_sep(s) - 1] == '/',
    decreases s.len(),
{
    if s.len() > 0 && s.last() != '/' {
        lemma_trailing_non_sep_count(s.drop_last());
        assert forall|k: int| s.len() - trailing_non_sep(s) <= k < s.len()
            implies s[k] != '/' by {
            if k < s.len() - 1 {
                assert(s.drop_last()[k] == s[k]);
            }
        }
        if trailing_non_sep(s) < s.len() {
            assert(s.drop_last()[s.len() - trailing_non_sep(s) - 1]
                == s[s.len() - trailing_non_sep(s) - 1]);
        }
    }
}

/// A run of `n` non-separators at the end, preceded by a separator or the
/// start, is exactly what `trailing_non_sep` counts.
proof fn lemma_trailing_count_eq(s: Seq<char>, n: int)
    requires
        0 <= n <= s.len(),
        forall|k: int| s.len() - n <= k < s.len() ==> s[k] != '/',
        n < s.len() ==> s[s.len() - n - 1] == '/',
    ensures
        trailing_non_sep(s) == n,
    decreases n,
{
    if n == 0 {
        if s.len() > 0 {
            assert(s.last() == '/');
        }
    } else {
        assert(s.last() != '/');
        assert forall|k: int| s.drop_last().len() - (n - 1) <= k < s.drop_last().len()
            implies s.drop_last()[k] != '/' by {
            assert(s.drop_last()[k] == s[k]);
        }
        if n - 1 < s.drop_last().len() {
            assert(s.drop_last()[s.drop_last().len() - (n - 1) - 1]
                == s[s.len() - n - 1]);
        }
        lemma_trailing_count_eq(s.drop_last(), n - 1);
    }
}

} // verus!
