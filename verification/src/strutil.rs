//! Character-sequence algorithms shared across the library.
//!
//! Strings are modelled as sequences of characters.  The spec functions here
//! say what searching, splitting, replacing, case mapping and stripping mean;
//! the exec functions are proved against them and are reused by the string
//! type, the template engine, the path code and the JSON codec.

use vstd::prelude::*;

verus! {

/// Append one character to an owned string.
///
/// Relies on `String::push`: appends exactly that character.
#[verifier::external_body]
pub fn push_char(s: &mut String, c: char)
    ensures
        final(s)@ == old(s)@.push(c),
{
    s.push(c);
}

/// Build an owned string holding exactly the given characters.
pub fn chars_to_string(v: &Vec<char>) -> (r: String)
    ensures
        r@ == v@,
{
    let mut out = String::new();
    let mut i: usize = 0;
    while i < v.len()
        invariant
            i <= v@.len(),
            out@ == v@.take(i as int),
        decreases v@.len() - i,
    {
        push_char(&mut out, v[i]);
        assert(out@ =~= v@.take(i + 1));
        i += 1;
    }
    assert(v@.take(v@.len() as int) =~= v@);
    out
}

/// The characters of a string slice, in order.
pub fn str_to_chars(s: &str) -> (r: Vec<char>)
    ensures
        r@ == s@,
{
    let n = s.unicode_len();
    let mut out: Vec<char> = Vec::new();
    let mut i: usize = 0;
    while i < n
        invariant
            n == s@.len(),
            i <= n,
            out@ == s@.take(i as int),
        decreases n - i,
    {
        out.push(s.get_char(i));
        assert(out@ =~= s@.take(i + 1));
        i += 1;
    }
    assert(s@.take(n as int) =~= s@);
    out
}

/// Whether the characters of `a` and `b` are equal.
pub fn chars_eq(a: &Vec<char>, b: &Vec<char>) -> (r: bool)
    ensures
        r == (a@ == b@),
{
    if a.len() != b.len() {
        return false;
    }
    let mut i: usize = 0;
    while i < a.len()
        invariant
            a@.len() == b@.len(),
            i <= a@.len(),
            forall|k: int| 0 <= k < i ==> a@[k] == b@[k],
        decreases a@.len() - i,
    {
        if a[i] != b[i] {
            return false;
        }
        i += 1;
    }
    proof {
        assert(a@ =~= b@);
    }
    true
}

/// Whether `sub` occurs in `s` starting at position `i`.
pub open spec fn occurs_at(s: Seq<char>, sub: Seq<char>, i: int) -> bool {
    0 <= i && i + sub.len() <= s.len() && s.subrange(i, i + sub.len() as int) == sub
}

/// The first position at or after `i` where `sub` occurs in `s`, if any.
pub open spec fn find_from(s: Seq<char>, sub: Seq<char>, i: int) -> Option<int>
    decreases s.len() - i + 1,
{
    if i < 0 || i + sub.len() > s.len() {
        None
    } else if occurs_at(s, sub, i) {
        Some(i)
    } else {
        find_from(s, sub, i + 1)
    }
}

/// Exec test of `occurs_at`.
pub fn occurs_at_exec(s: &Vec<char>, sub: &Vec<char>, i: usize) -> (r: bool)
    ensures
        r == occurs_at(s@, sub@, i as int),
{
    if i > s.len() || sub.len() > s.len() - i {
        return false;
    }
    let mut k: usize = 0;
    while k < sub.len()
        invariant
            i + sub@.len() <= s@.len(),
            s@.len() <= usize::MAX,
            k <= sub@.len(),
            forall|j: int| 0 <= j < k ==> s@[i + j] == sub@[j],
        decreases sub@.len() - k,
    {
        assert(i + k < s@.len());
        if s[i + k] != sub[k] {
            return false;
        }
        k += 1;
    }
    proof {
        assert(s@.subrange(i as int, i + sub@.len() as int) =~= sub@);
    }
    true
}

/// Find the first occurrence of `sub` in `s` at or after `from`.
pub fn find_sub(s: &Vec<char>, sub: &Vec<char>, from: usize) -> (r: Option<usize>)
    ensures
        match r {
            Some(j) => Some(j as int) == find_from(s@, sub@, from as int),
            None => find_from(s@, sub@, from as int) is None,
        },
{
    if sub.len() == 0 {
        if from <= s.len() {
            proof {
                assert(s@.subrange(from as int, from as int) =~= sub@);
                assert(occurs_at(s@, sub@, from as int));
            }
            return Some(from);
        } else {
            return None;
        }
    }
    let mut j: usize = from;
    loop
        invariant
            from <= j,
            sub@.len() > 0,
            find_from(s@, sub@, from as int) == find_from(s@, sub@, j as int),
        decreases s@.len() + 1 - j,
    {
        if j > s.len() || sub.len() > s.len() - j {
            assert(find_from(s@, sub@, j as int) is None);
            return None;
        }
        if occurs_at_exec(s, sub, j) {
            assert(find_from(s@, sub@, j as int) == Some(j as int));
            return Some(j);
        }
        assert(find_from(s@, sub@, j as int) == find_from(s@, sub@, j + 1));
        j += 1;
    }
}

/// `s` with every non-overlapping occurrence of `old_sub` replaced by
/// `new_sub`, scanning left to right.  An empty pattern leaves `s` unchanged.
pub open spec fn replace_spec(s: Seq<char>, old_sub: Seq<char>, new_sub: Seq<char>) -> Seq<char>
    decreases s.len(),
{
    if old_sub.len() == 0 {
        s
    } else if s.len() < old_sub.len() {
        s
    } else if s.subrange(0, old_sub.len() as int) == old_sub {
        new_sub + replace_spec(s.skip(old_sub.len() as int), old_sub, new_sub)
    } else {
        seq![s[0]] + replace_spec(s.skip(1), old_sub, new_sub)
    }
}

/// Append every character of `src` to `out`.
pub fn push_all(out: &mut Vec<char>, src: &Vec<char>)
    ensures
        final(out)@ == old(out)@ + src@,
{
    let mut k: usize = 0;
    while k < src.len()
        invariant
            k <= src@.len(),
            out@ == old(out)@ + src@.take(k as int),
        decreases src@.len() - k,
    {
        out.push(src[k]);
        assert(out@ =~= old(out)@ + src@.take(k + 1));
        k += 1;
    }
    assert(old(out)@ + src@.take(src@.len() as int) =~= old(out)@ + src@);
}

/// Exec replacement, proved equal to `replace_spec`.
pub fn replace_chars(s: &Vec<char>, old_sub: &Vec<char>, new_sub: &Vec<char>) -> (r: Vec<char>)
    ensures
        r@ == replace_spec(s@, old_sub@, new_sub@),
{
    if old_sub.len() == 0 {
        return s.clone();
    }
    let mut out: Vec<char> = Vec::new();
    let mut i: usize = 0;
    proof {
        assert(s@.skip(0) =~= s@);
        assert(Seq::<char>::empty() + replace_spec(s@, old_sub@, new_sub@)
            =~= replace_spec(s@, old_sub@, new_sub@));
    }
    while i < s.len()
        invariant
            old_sub@.len() > 0,
            i <= s@.len(),
            out@ + replace_spec(s@.skip(i as int), old_sub@, new_sub@)
                == replace_spec(s@, old_sub@, new_sub@),
        decreases s@.len() - i,
    {
        let ghost rest = s@.skip(i as int);
        if occurs_at_exec(s, old_sub, i) {
            proof {
                assert(rest.subrange(0, old_sub@.len() as int)
                    =~= s@.subrange(i as int, i + old_sub@.len() as int));
                assert(rest.skip(old_sub@.len() as int)
                    =~= s@.skip(i + old_sub@.len() as int));
                assert(replace_spec(rest, old_sub@, new_sub@)
                    == new_sub@ + replace_spec(s@.skip(i + old_sub@.len() as int), old_sub@, new_sub@));
            }
            push_all(&mut out, new_sub);
            i += old_sub.len();
        } else {
            proof {
                assert(rest.len() >= 1);
                if rest.len() >= old_sub@.len() {
                    assert(rest.subrange(0, old_sub@.len() as int)
                        =~= s@.subrange(i as int, i + old_sub@.len() as int));
                }
                assert(rest.skip(1) =~= s@.skip(i + 1));
                assert(rest[0] == s@[i as int]);
                assert(replace_spec(rest, old_sub@, new_sub@)
                    == seq![s@[i as int]] + replace_spec(s@.skip(i + 1), old_sub@, new_sub@));
            }
            out.push(s[i]);
            i += 1;
        }
    }
    proof {
        assert(s@.skip(s@.len() as int) =~= Seq::<char>::empty());
        assert(out@ =~= replace_spec(s@, old_sub@, new_sub@));
    }
    out
}


/// The whitespace characters that `strip` and whitespace splitting honour.
pub open spec fn is_space_char(c: char) -> bool {
    c == ' ' || c == '\t' || c == '\n' || c == '\r' || c == '\u{b}' || c == '\u{c}'
}

/// Exec test of `is_space_char`.
pub fn is_space(c: char) -> (r: bool)
    ensures
        r == is_space_char(c),
{
    c == ' ' || c == '\t' || c == '\n' || c == '\r' || c == '\u{b}' || c == '\u{c}'
}

/// Lower-case image of one character; only ASCII letters change.
pub open spec fn to_lower_char(c: char) -> char {
    if 'A' <= c && c <= 'Z' {
        ((c as u8) + 32) as char
    } else {
        c
    }
}

/// Upper-case image of one character; only ASCII letters change.
pub open spec fn to_upper_char(c: char) -> char {
    if 'a' <= c && c <= 'z' {
        ((c as u8) - 32) as char
    } else {
        c
    }
}

pub open spec fn lower_spec(s: Seq<char>) -> Seq<char> {
    s.map_values(|c: char| to_lower_char(c))
}

pub open spec fn upper_spec(s: Seq<char>) -> Seq<char> {
    s.map_values(|c: char| to_upper_char(c))
}

/// Lower-casing is idempotent character by character.
pub proof fn lemma_lower_char_idempotent(c: char)
    ensures
        to_lower_char(to_lower_char(c)) == to_lower_char(c),
{
}

/// Upper-casing is idempotent character by character.
pub proof fn lemma_upper_char_idempotent(c: char)
    ensures
        to_upper_char(to_upper_char(c)) == to_upper_char(c),
{
}

/// Exec lower-casing of one character.
pub fn lower_char(c: char) -> (r: char)
    ensures
        r == to_lower_char(c),
{
    if 'A' <= c && c <= 'Z' {
        ((c as u8) + 32) as char
    } else {
        c
    }
}

/// Exec upper-casing of one character.
pub fn upper_char(c: char) -> (r: char)
    ensures
        r == to_upper_char(c),
{
    if 'a' <= c && c <= 'z' {
        ((c as u8) - 32) as char
    } else {
        c
    }
}

/// Exec lower-casing of a character sequence.
pub fn lower_chars(s: &Vec<char>) -> (r: Vec<char>)
    ensures
        r@ == lower_spec(s@),
{
    let mut out: Vec<char> = Vec::new();
    let mut i: usize = 0;
    while i < s.len()
        invariant
            i <= s@.len(),
            out@ == lower_spec(s@.take(i as int)),
        decreases s@.len() - i,
    {
        out.push(lower_char(s[i]));
        assert(out@ =~= lower_spec(s@.take(i + 1)));
        i += 1;
    }
    assert(s@.take(s@.len() as int) =~= s@);
    out
}

/// Exec upper-casing of a character sequence.
pub fn upper_chars(s: &Vec<char>) -> (r: Vec<char>)
    ensures
        r@ == upper_spec(s@),
{
    let mut out: Vec<char> = Vec::new();
    let mut i: usize = 0;
    while i < s.len()
        invariant
            i <= s@.len(),
            out@ == upper_spec(s@.take(i as int)),
        decreases s@.len() - i,
    {
        out.push(upper_char(s[i]));
        assert(out@ =~= upper_spec(s@.take(i + 1)));
        i += 1;
    }
    assert(s@.take(s@.len() as int) =~= s@);
    out
}

/// Number of leading whitespace characters.
pub open spec fn leading_ws(s: Seq<char>) -> int
    decreases s.len(),
{
    if s.len() == 0 || !is_space_char(s[0]) {
        0
    } else {
        1 + leading_ws(s.skip(1))
    }
}

/// Number of trailing whitespace characters.
pub open spec fn trailing_ws(s: Seq<char>) -> int
    decreases s.len(),
{
    if s.len() == 0 || !is_space_char(s.last()) {
        0
    } else {
        1 + trailing_ws(s.drop_last())
    }
}

/// `s` with leading and trailing whitespace removed.
pub open spec fn strip_spec(s: Seq<char>) -> Seq<char> {
    let rest = s.skip(leading_ws(s));
    rest.take(rest.len() - trailing_ws(rest))
}

/// What `leading_ws` counts: the longest all-space prefix.
pub proof fn lemma_leading_ws_props(s: Seq<char>)
    ensures
        0 <= leading_ws(s) <= s.len(),
        forall|i: int| 0 <= i < leading_ws(s) ==> is_space_char(s[i]),
        leading_ws(s) < s.len() ==> !is_space_char(s[leading_ws(s)]),
    decreases s.len(),
{
    if s.len() > 0 && is_space_char(s[0]) {
        lemma_leading_ws_props(s.skip(1));
        assert forall|i: int| 0 <= i < leading_ws(s) implies is_space_char(s[i]) by {
            if i > 0 {
                assert(s.skip(1)[i - 1] == s[i]);
            }
        }
        if leading_ws(s) < s.len() {
            assert(s.skip(1)[leading_ws(s) - 1] == s[leading_ws(s)]);
        }
    }
}

/// What `trailing_ws` counts: the longest all-space suffix.
pub proof fn lemma_trailing_ws_props(s: Seq<char>)
    ensures
        0 <= trailing_ws(s) <= s.len(),
        forall|i: int| s.len() - trailing_ws(s) <= i < s.len() ==> is_space_char(s[i]),
        trailing_ws(s) < s.len() ==> !is_space_char(s[s.len() - trailing_ws(s) - 1]),
    decreases s.len(),
{
    if s.len() > 0 && is_space_char(s.last()) {
        lemma_trailing_ws_props(s.drop_last());
        assert forall|i: int| s.len() - trailing_ws(s) <= i < s.len() implies is_space_char(s[i]) by {
            if i < s.len() - 1 {
                assert(s.drop_last()[i] == s[i]);
            }
        }
        if trailing_ws(s) < s.len() {
            assert(s.drop_last()[s.len() - trailing_ws(s) - 1] == s[s.len() - trailing_ws(s) - 1]);
        }
    }
}

/// Exec strip, proved equal to `strip_spec`.
pub fn strip_chars(s: &Vec<char>) -> (r: Vec<char>)
    ensures
        r@ == strip_spec(s@),
        r@.len() <= s@.len(),
{
    proof {
        lemma_leading_ws_props(s@);
    }
    let _len_fact = s.len();
    assert(s@.len() <= usize::MAX);
    let mut start: usize = 0;
    while start < s.len() && is_space(s[start])
        invariant
            start <= s@.len(),
            s@.len() <= usize::MAX,
            forall|i: int| 0 <= i < start ==> is_space_char(s@[i]),
        decreases s@.len() - start,
    {
        start += 1;
    }
    proof {
        // start is exactly the leading-whitespace count
        if start < leading_ws(s@) {
            assert(is_space_char(s@[start as int]));
            assert(false);
        }
        if start > leading_ws(s@) {
            assert(is_space_char(s@[leading_ws(s@)]));
            assert(false);
        }
    }
    let ghost rest = s@.skip(leading_ws(s@));
    proof {
        lemma_trailing_ws_props(rest);
    }
    let mut end: usize = s.len();
    while end > start && is_space(s[end - 1])
        invariant
            start <= end <= s@.len(),
            start == leading_ws(s@),
            rest == s@.skip(leading_ws(s@)),
            forall|i: int| end <= i < s@.len() ==> is_space_char(s@[i]),
        decreases end,
    {
        end -= 1;
    }
    proof {
        // end - start is exactly rest.len() - trailing_ws(rest)
        assert forall|i: int| 0 <= i < rest.len() implies rest[i] == s@[start + i] by {}
        let keep = rest.len() - trailing_ws(rest);
        if end - start < keep {
            // then rest[end - start] is inside the kept region but marked space
            assert(is_space_char(s@[end as int]));
            assert(rest[end - start] == s@[end as int]);
            if trailing_ws(rest) < rest.len() {
                assert(!is_space_char(rest[keep - 1]));
            }
            // positions end-start .. rest.len() are all spaces, so trailing_ws >= rest.len()-(end-start)
            // but keep - 1 >= end - start is a non-space in that range: contradiction
            assert(keep - 1 >= end - start);
            assert(rest[keep - 1] == s@[start + keep - 1]);
            assert(start + keep - 1 >= end);
            assert(is_space_char(s@[start + keep - 1]));
            assert(false);
        }
        if end - start > keep {
            // rest[end - start - 1] is a trailing space by trailing_ws props,
            // but the loop stopped because it is not a space
            assert(rest.len() - trailing_ws(rest) <= end - start - 1 < rest.len());
            assert(is_space_char(rest[end - start - 1]));
            assert(rest[end - start - 1] == s@[end - 1]);
            if end > start {
                assert(!is_space_char(s@[end - 1]));
            }
            assert(false);
        }
        assert(end - start == keep);
    }
    let mut out: Vec<char> = Vec::new();
    let mut i: usize = start;
    while i < end
        invariant
            start <= i <= end <= s@.len(),
            out@ == s@.subrange(start as int, i as int),
        decreases end - i,
    {
        out.push(s[i]);
        assert(out@ =~= s@.subrange(start as int, i + 1));
        i += 1;
    }
    proof {
        let keep = rest.len() - trailing_ws(rest);
        assert(out@ =~= rest.take(keep));
    }
    out
}

/// Stripping is idempotent: a stripped string strips to itself.
pub proof fn lemma_strip_idempotent(s: Seq<char>)
    ensures
        strip_spec(strip_spec(s)) == strip_spec(s),
{
    lemma_leading_ws_props(s);
    let rest = s.skip(leading_ws(s));
    lemma_trailing_ws_props(rest);
    let t = strip_spec(s);
    if t.len() > 0 {
        assert(t[0] == rest[0]);
        assert(rest[0] == s[leading_ws(s)]);
        assert(!is_space_char(t[0]));
        assert(leading_ws(t) == 0);
        assert(t.last() == rest[t.len() - 1]);
        assert(!is_space_char(t.last()));
        assert(trailing_ws(t) == 0);
        assert(strip_spec(t) =~= t);
    } else {
        assert(leading_ws(t) == 0);
        assert(trailing_ws(t) == 0);
        assert(strip_spec(t) =~= t);
    }
}

/// `s` concatenated with itself `n` times; empty for a non-positive count.
pub open spec fn repeat_spec(s: Seq<char>, n: int) -> Seq<char>
    decreases n,
{
    if n <= 0 {
        Seq::empty()
    } else {
        s + repeat_spec(s, n - 1)
    }
}

/// Number of non-overlapping occurrences of `sub` in `s`, scanning left to
/// right; an empty pattern matches at every boundary.
pub open spec fn count_occ_spec(s: Seq<char>, sub: Seq<char>) -> int
    decreases s.len(),
{
    if sub.len() == 0 {
        s.len() as int + 1
    } else if s.len() < sub.len() {
        0
    } else if s.subrange(0, sub.len() as int) == sub {
        1 + count_occ_spec(s.skip(sub.len() as int), sub)
    } else {
        count_occ_spec(s.skip(1), sub)
    }
}

/// Exec occurrence count, proved equal to `count_occ_spec`.
pub fn count_occ_chars(s: &Vec<char>, sub: &Vec<char>) -> (r: usize)
    requires
        s@.len() < usize::MAX,
    ensures
        r as int == count_occ_spec(s@, sub@),
{
    if sub.len() == 0 {
        return s.len() + 1;
    }
    let mut cnt: usize = 0;
    let mut i: usize = 0;
    proof {
        assert(s@.skip(0) =~= s@);
    }
    while i < s.len()
        invariant
            sub@.len() > 0,
            i <= s@.len(),
            cnt <= i,
            cnt as int + count_occ_spec(s@.skip(i as int), sub@) == count_occ_spec(s@, sub@),
        decreases s@.len() - i,
    {
        let ghost rest = s@.skip(i as int);
        if occurs_at_exec(s, sub, i) {
            proof {
                assert(rest.subrange(0, sub@.len() as int)
                    =~= s@.subrange(i as int, i + sub@.len() as int));
                assert(rest.skip(sub@.len() as int) =~= s@.skip(i + sub@.len() as int));
            }
            cnt += 1;
            i += sub.len();
        } else {
            proof {
                if rest.len() >= sub@.len() {
                    assert(rest.subrange(0, sub@.len() as int)
                        =~= s@.subrange(i as int, i + sub@.len() as int));
                }
                assert(rest.skip(1) =~= s@.skip(i + 1));
            }
            i += 1;
        }
    }
    assert(s@.skip(s@.len() as int) =~= Seq::<char>::empty());
    cnt
}

/// The pieces of `s` split on every occurrence of a non-empty separator,
/// scanning left to right; empty pieces are kept.
pub open spec fn split_spec(s: Seq<char>, sep: Seq<char>) -> Seq<Seq<char>>
    decreases s.len(),
{
    if sep.len() == 0 {
        seq![s]
    } else {
        match find_from(s, sep, 0) {
            Option::None => seq![s],
            Option::Some(j) => if 0 <= j && j + sep.len() <= s.len() {
                seq![s.take(j)] + split_spec(s.skip(j + sep.len()), sep)
            } else {
                seq![s]
            },
        }
    }
}

/// Facts about `find_from`: a found index is a first occurrence.
pub proof fn lemma_find_from_props(s: Seq<char>, sub: Seq<char>, i: int)
    requires
        0 <= i,
    ensures
        match find_from(s, sub, i) {
            Option::Some(j) => i <= j && occurs_at(s, sub, j)
                && forall|k: int| i <= k < j ==> !occurs_at(s, sub, k),
            Option::None => forall|k: int| i <= k ==> !occurs_at(s, sub, k),
        },
    decreases s.len() - i + 1,
{
    if i + sub.len() > s.len() {
    } else if occurs_at(s, sub, i) {
    } else {
        lemma_find_from_props(s, sub, i + 1);
    }
}

/// Searching from `i` in `s` is searching from the start of `s.skip(i)`.
pub proof fn lemma_find_from_skip(s: Seq<char>, sub: Seq<char>, i: int, j: int)
    requires
        0 <= i <= s.len(),
        i <= j,
    ensures
        find_from(s, sub, j) == match find_from(s.skip(i), sub, j - i) {
            Option::None => Option::<int>::None,
            Option::Some(k) => Option::Some(k + i),
        },
    decreases s.len() - j + 1,
{
    let tail = s.skip(i);
    if j + sub.len() > s.len() {
        assert(find_from(s, sub, j) is None);
    } else {
        assert(tail.len() == s.len() - i);
        assert(forall|a: int, b: int| 0 <= a && a <= b && b <= tail.len()
            ==> #[trigger] tail.subrange(a, b) =~= s.subrange(a + i, b + i));
        assert(occurs_at(s, sub, j) == occurs_at(tail, sub, j - i));
        if occurs_at(s, sub, j) {
        } else {
            lemma_find_from_skip(s, sub, i, j + 1);
        }
    }
}

/// Exec split on a separator, proved equal to `split_spec`.
pub fn split_chars(s: &Vec<char>, sep: &Vec<char>) -> (r: Vec<Vec<char>>)
    ensures
        r@.map_values(|p: Vec<char>| p@) == split_spec(s@, sep@),
{
    let mut out: Vec<Vec<char>> = Vec::new();
    if sep.len() == 0 {
        out.push(s.clone());
        assert(out@.map_values(|p: Vec<char>| p@) =~= split_spec(s@, sep@));
        return out;
    }
    let mut i: usize = 0;
    let _len_fact = s.len();
    proof {
        assert(s@.len() <= usize::MAX);
        assert(s@.skip(0) =~= s@);
        assert(Seq::<Seq<char>>::empty() + split_spec(s@, sep@) =~= split_spec(s@, sep@));
    }
    loop
        invariant
            sep@.len() > 0,
            i <= s@.len(),
            s@.len() <= usize::MAX,
            out@.map_values(|p: Vec<char>| p@) + split_spec(s@.skip(i as int), sep@)
                == split_spec(s@, sep@),
        decreases s@.len() - i,
    {
        let ghost rest = s@.skip(i as int);
        match find_sub(s, sep, i) {
            Option::Some(j) => {
                proof {
                    lemma_find_from_props(s@, sep@, i as int);
                    lemma_find_from_skip(s@, sep@, i as int, i as int);
                    assert(find_from(rest, sep@, 0) == Option::Some(j - i));
                    assert(rest.take(j - i) =~= s@.subrange(i as int, j as int));
                    assert(rest.skip(j - i + sep@.len()) =~= s@.skip(j + sep@.len()));
                }
                let mut piece: Vec<char> = Vec::new();
                let mut k: usize = i;
                while k < j
                    invariant
                        i <= k <= j,
                        j <= s@.len(),
                        piece@ == s@.subrange(i as int, k as int),
                    decreases j - k,
                {
                    piece.push(s[k]);
                    assert(piece@ =~= s@.subrange(i as int, k + 1));
                    k += 1;
                }
                let ghost out_before = out@;
                out.push(piece);
                proof {
                    assert(out@.map_values(|p: Vec<char>| p@)
                        =~= out_before.map_values(|p: Vec<char>| p@).push(s@.subrange(i as int, j as int)));
                    assert(out@.map_values(|p: Vec<char>| p@) + split_spec(s@.skip(j + sep@.len()), sep@)
                        =~= split_spec(s@, sep@));
                }
                i = j + sep.len();
            }
            Option::None => {
                proof {
                    lemma_find_from_skip(s@, sep@, i as int, i as int);
                    assert(find_from(rest, sep@, 0) is None);
                    assert(split_spec(rest, sep@) == seq![rest]);
                }
                let mut piece: Vec<char> = Vec::new();
                let mut k: usize = i;
                while k < s.len()
                    invariant
                        i <= k <= s@.len(),
                        piece@ == s@.subrange(i as int, k as int),
                    decreases s@.len() - k,
                {
                    piece.push(s[k]);
                    assert(piece@ =~= s@.subrange(i as int, k + 1));
                    k += 1;
                }
                let ghost out_before = out@;
                out.push(piece);
                proof {
                    assert(piece@ =~= rest);
                    assert(out@.map_values(|p: Vec<char>| p@)
                        =~= out_before.map_values(|p: Vec<char>| p@).push(rest));
                    assert(out@.map_values(|p: Vec<char>| p@) =~= split_spec(s@, sep@));
                }
                return out;
            }
        }
    }
}

/// Length of the initial run of non-whitespace characters.
pub open spec fn word_len(s: Seq<char>) -> int
    decreases s.len(),
{
    if s.len() == 0 || is_space_char(s[0]) {
        0
    } else {
        1 + word_len(s.skip(1))
    }
}

pub proof fn lemma_word_len_props(s: Seq<char>)
    ensures
        0 <= word_len(s) <= s.len(),
        forall|i: int| 0 <= i < word_len(s) ==> !is_space_char(s[i]),
        word_len(s) < s.len() ==> is_space_char(s[word_len(s)]),
        s.len() > 0 && !is_space_char(s[0]) ==> word_len(s) >= 1,
    decreases s.len(),
{
    if s.len() > 0 && !is_space_char(s[0]) {
        lemma_word_len_props(s.skip(1));
        assert forall|i: int| 0 <= i < word_len(s) implies !is_space_char(s[i]) by {
            if i > 0 {
                assert(s.skip(1)[i - 1] == s[i]);
            }
        }
        if word_len(s) < s.len() {
            assert(s.skip(1)[word_len(s) - 1] == s[word_len(s)]);
        }
    }
}

/// The words of `s`: maximal runs of non-whitespace characters.
pub open spec fn split_ws_spec(s: Seq<char>) -> Seq<Seq<char>>
    decreases s.len(),
{
    if s.len() == 0 {
        Seq::empty()
    } else if is_space_char(s[0]) {
        split_ws_spec(s.skip(1))
    } else {
        let w = word_len(s);
        if 1 <= w <= s.len() {
            seq![s.take(w)] + split_ws_spec(s.skip(w))
        } else {
            seq![s]
        }
    }
}

/// Exec whitespace split, proved equal to `split_ws_spec`.
pub fn split_ws_chars(s: &Vec<char>) -> (r: Vec<Vec<char>>)
    ensures
        r@.map_values(|p: Vec<char>| p@) == split_ws_spec(s@),
{
    let mut out: Vec<Vec<char>> = Vec::new();
    let mut i: usize = 0;
    let _len_fact = s.len();
    proof {
        assert(s@.len() <= usize::MAX);
        assert(s@.skip(0) =~= s@);
        assert(Seq::<Seq<char>>::empty() + split_ws_spec(s@) =~= split_ws_spec(s@));
    }
    while i < s.len()
        invariant
            i <= s@.len(),
            s@.len() <= usize::MAX,
            out@.map_values(|p: Vec<char>| p@) + split_ws_spec(s@.skip(i as int))
                == split_ws_spec(s@),
        decreases s@.len() - i,
    {
        let ghost rest = s@.skip(i as int);
        if is_space(s[i]) {
            proof {
                assert(rest[0] == s@[i as int]);
                assert(rest.skip(1) =~= s@.skip(i + 1));
            }
            i += 1;
        } else {
            proof {
                assert(rest[0] == s@[i as int]);
                lemma_word_len_props(rest);
            }
            let mut piece: Vec<char> = Vec::new();
            let mut k: usize = i;
            while k < s.len() && !is_space(s[k])
                invariant
                    i <= k <= s@.len(),
                    s@.len() <= usize::MAX,
                    rest == s@.skip(i as int),
                    forall|t: int| i <= t < k ==> !is_space_char(s@[t]),
                    piece@ == s@.subrange(i as int, k as int),
                decreases s@.len() - k,
            {
                piece.push(s[k]);
                assert(piece@ =~= s@.subrange(i as int, k + 1));
                k += 1;
            }
            proof {
                // k - i is exactly word_len(rest)
                assert(forall|t: int| 0 <= t < rest.len() ==> rest[t] == s@[i + t]);
                let w = word_len(rest);
                if k - i < w {
                    assert(!is_space_char(rest[k - i]));
                    assert(rest[k - i] == s@[k as int]);
                    assert(k < s@.len());
                    assert(is_space_char(s@[k as int]));
                    assert(false);
                }
                if k - i > w {
                    assert(w < rest.len());
                    assert(is_space_char(rest[w]));
                    assert(rest[w] == s@[i + w]);
                    assert(i <= i + w < k);
                    assert(!is_space_char(s@[i + w]));
                    assert(false);
                }
                assert(k - i == w);
                assert(piece@ =~= rest.take(w));
                assert(rest.skip(w) =~= s@.skip(k as int));
            }
            let ghost out_before = out@;
            out.push(piece);
            proof {
                assert(out@.map_values(|p: Vec<char>| p@)
                    =~= out_before.map_values(|p: Vec<char>| p@).push(rest.take(word_len(rest))));
                assert(out@.map_values(|p: Vec<char>| p@) + split_ws_spec(s@.skip(k as int))
                    =~= split_ws_spec(s@));
            }
            i = k;
        }
    }
    assert(s@.skip(s@.len() as int) =~= Seq::<char>::empty());
    assert(out@.map_values(|p: Vec<char>| p@) =~= split_ws_spec(s@));
    out
}

/// The pieces joined with `sep` between consecutive pieces.
pub open spec fn join_spec(parts: Seq<Seq<char>>, sep: Seq<char>) -> Seq<char>
    decreases parts.len(),
{
    if parts.len() == 0 {
        Seq::empty()
    } else if parts.len() == 1 {
        parts[0]
    } else {
        parts[0] + sep + join_spec(parts.skip(1), sep)
    }
}

/// Joining after appending one piece appends a separator and the piece.
pub proof fn lemma_join_snoc(parts: Seq<Seq<char>>, x: Seq<char>, sep: Seq<char>)
    ensures
        join_spec(parts.push(x), sep) == if parts.len() == 0 {
            x
        } else {
            join_spec(parts, sep) + sep + x
        },
    decreases parts.len(),
{
    let p2 = parts.push(x);
    if parts.len() == 0 {
        assert(p2[0] == x);
    } else if parts.len() == 1 {
        assert(p2.skip(1) =~= seq![x]);
        assert(join_spec(p2.skip(1), sep) == x);
        assert(join_spec(p2, sep) == parts[0] + sep + x);
        assert(join_spec(parts, sep) == parts[0]);
    } else {
        lemma_join_snoc(parts.skip(1), x, sep);
        assert(p2.skip(1) =~= parts.skip(1).push(x));
        assert(join_spec(p2, sep) == p2[0] + sep + join_spec(parts.skip(1).push(x), sep));
        assert(join_spec(p2, sep) == parts[0] + sep + (join_spec(parts.skip(1), sep) + sep + x));
        assert(parts[0] + sep + (join_spec(parts.skip(1), sep) + sep + x)
            =~= (parts[0] + sep + join_spec(parts.skip(1), sep)) + sep + x);
    }
}

/// Exec join, proved equal to `join_spec`.
pub fn join_chars(parts: &Vec<Vec<char>>, sep: &Vec<char>) -> (r: Vec<char>)
    ensures
        r@ == join_spec(parts@.map_values(|p: Vec<char>| p@), sep@),
{
    let ghost gparts = parts@.map_values(|p: Vec<char>| p@);
    let mut out: Vec<char> = Vec::new();
    let mut i: usize = 0;
    while i < parts.len()
        invariant
            i <= parts@.len(),
            gparts == parts@.map_values(|p: Vec<char>| p@),
            out@ == join_spec(gparts.take(i as int), sep@),
        decreases parts@.len() - i,
    {
        if i > 0 {
            push_all(&mut out, sep);
        }
        push_all(&mut out, &parts[i]);
        proof {
            assert(gparts.take(i + 1) =~= gparts.take(i as int).push(gparts[i as int]));
            lemma_join_snoc(gparts.take(i as int), gparts[i as int], sep@);
        }
        i += 1;
    }
    assert(gparts.take(gparts.len() as int) =~= gparts);
    out
}

/// Exec repetition, proved equal to `repeat_spec`.
pub fn repeat_chars(s: &Vec<char>, n: usize) -> (r: Vec<char>)
    ensures
        r@ == repeat_spec(s@, n as int),
{
    let mut out: Vec<char> = Vec::new();
    let mut i: usize = 0;
    while i < n
        invariant
            i <= n,
            out@ == repeat_spec(s@, i as int),
        decreases n - i,
    {
        push_all(&mut out, s);
        proof {
            lemma_repeat_snoc(s@, i as int);
        }
        i += 1;
    }
    out
}

/// Repetition grows one copy at a time, on either side.
pub proof fn lemma_repeat_snoc(s: Seq<char>, n: int)
    requires
        n >= 0,
    ensures
        repeat_spec(s, n + 1) == repeat_spec(s, n) + s,
    decreases n,
{
    if n == 0 {
        assert(repeat_spec(s, 1) == s + repeat_spec(s, 0));
        assert(s + Seq::<char>::empty() =~= s);
        assert(Seq::<char>::empty() + s =~= s);
    } else {
        lemma_repeat_snoc(s, n - 1);
        assert(repeat_spec(s, n + 1) == s + repeat_spec(s, n));
        assert(repeat_spec(s, n) == s + repeat_spec(s, n - 1));
        assert(s + (repeat_spec(s, n - 1) + s) =~= (s + repeat_spec(s, n - 1)) + s);
    }
}


/// Law: lower-casing a whole string twice is the same as doing it once.
pub proof fn lemma_lower_idempotent(s: Seq<char>)
    ensures
        lower_spec(lower_spec(s)) == lower_spec(s),
{
    assert forall|i: int| 0 <= i < lower_spec(lower_spec(s)).len()
        implies lower_spec(lower_spec(s))[i] == lower_spec(s)[i] by {
        lemma_lower_char_idempotent(s[i]);
    }
    assert(lower_spec(lower_spec(s)) =~= lower_spec(s));
}

/// Law: upper-casing a whole string twice is the same as doing it once.
pub proof fn lemma_upper_idempotent(s: Seq<char>)
    ensures
        upper_spec(upper_spec(s)) == upper_spec(s),
{
    assert forall|i: int| 0 <= i < upper_spec(upper_spec(s)).len()
        implies upper_spec(upper_spec(s))[i] == upper_spec(s)[i] by {
        lemma_upper_char_idempotent(s[i]);
    }
    assert(upper_spec(upper_spec(s)) =~= upper_spec(s));
}

} // verus!
