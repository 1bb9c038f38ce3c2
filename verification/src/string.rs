//! The string module: word capitalisation, `$`-templates and positional
//! formatting.

use vstd::prelude::*;
use crate::caps::AsStrLike;
use crate::exceptions::PyException;
use crate::exceptions::key_error;
use crate::exceptions::value_error;
use crate::pystr::format_from;
use crate::strutil;
use crate::strutil::chars_to_string;
use crate::strutil::find_from;
use crate::strutil::join_spec;
use crate::strutil::join_chars;
use crate::strutil::lower_spec;
use crate::strutil::lower_char;
use crate::strutil::replace_spec;
use crate::strutil::replace_chars;
use crate::strutil::split_spec;
use crate::strutil::split_chars;
use crate::strutil::split_ws_spec;
use crate::strutil::split_ws_chars;
use crate::strutil::str_to_chars;
use crate::strutil::to_lower_char;
use crate::strutil::to_upper_char;
use crate::strutil::upper_char;

verus! {

/// A word with its first letter upper-cased and the rest lower-cased.
pub open spec fn cap_word(w: Seq<char>) -> Seq<char> {
    if w.len() == 0 {
        w
    } else {
        seq![to_upper_char(w[0])] + lower_spec(w.skip(1))
    }
}

/// What `capwords` produces: the words of `s` (split on the separator, or
/// on whitespace when none is given), each capitalised, joined back with
/// the separator (a single space when none is given).
pub open spec fn capwords_spec(s: Seq<char>, sep: Option<Seq<char>>) -> Seq<char> {
    match sep {
        Some(sp) => join_spec(split_spec(s, sp).map_values(|w: Seq<char>| cap_word(w)), sp),
        None => join_spec(split_ws_spec(s).map_values(|w: Seq<char>| cap_word(w)), " "@),
    }
}

/// Exec test of `is_ident_start`.
fn is_ident_start_exec(c: char) -> (r: bool)
    ensures
        r == is_ident_start(c),
{
    ('a' <= c && c <= 'z') || ('A' <= c && c <= 'Z') || c == '_'
}

/// Exec test of `is_ident_char`.
fn is_ident_char_exec(c: char) -> (r: bool)
    ensures
        r == is_ident_char(c),
{
    is_ident_start_exec(c) || ('0' <= c && c <= '9')
}

/// Capitalise one word buffer.
fn cap_word_exec(w: &Vec<char>) -> (r: Vec<char>)
    ensures
        r@ == cap_word(w@),
{
    let mut out: Vec<char> = Vec::new();
    if w.len() == 0 {
        return out;
    }
    out.push(upper_char(w[0]));
    let mut i: usize = 1;
    while i < w.len()
        invariant
            1 <= i <= w@.len(),
            out@ == seq![to_upper_char(w@[0])] + lower_spec(w@.skip(1)).take(i - 1),
        decreases w@.len() - i,
    {
        out.push(lower_char(w[i]));
        proof {
            assert(lower_spec(w@.skip(1))[i - 1] == to_lower_char(w@[i as int]));
            assert(out@ =~= seq![to_upper_char(w@[0])] + lower_spec(w@.skip(1)).take(i as int));
        }
        i += 1;
    }
    proof {
        assert(lower_spec(w@.skip(1)).take(w@.len() - 1) =~= lower_spec(w@.skip(1)));
    }
    out
}

/// Capitalise the words of `s`; `sep` both splits and rejoins.
pub fn capwords<S: AsStrLike>(s: S, sep: Option<String>) -> (r: String)
    ensures
        r@ == capwords_spec(
            s.str_view(),
            match sep {
                Some(sp) => Some(sp@),
                None => None,
            },
        ),
{
    let chars = str_to_chars(s.as_str_like());
    let (words, joiner): (Vec<Vec<char>>, Vec<char>) = match &sep {
        Some(sp) => {
            let sep_chars = str_to_chars(sp.as_str());
            let w = split_chars(&chars, &sep_chars);
            (w, sep_chars)
        }
        None => {
            let w = split_ws_chars(&chars);
            let mut space: Vec<char> = Vec::new();
            space.push(' ');
            proof {
                reveal_strlit(" ");
                assert(space@ =~= " "@);
            }
            (w, space)
        }
    };
    let ghost wviews = words@.map_values(|p: Vec<char>| p@);
    let mut capped: Vec<Vec<char>> = Vec::new();
    let mut i: usize = 0;
    while i < words.len()
        invariant
            i <= words@.len(),
            wviews == words@.map_values(|p: Vec<char>| p@),
            capped@.len() == i,
            forall|k: int| 0 <= k < i ==> #[trigger] capped@[k]@ == cap_word(wviews[k]),
        decreases words@.len() - i,
    {
        let c = cap_word_exec(&words[i]);
        capped.push(c);
        i += 1;
    }
    proof {
        assert(capped@.map_values(|p: Vec<char>| p@)
            =~= wviews.map_values(|w: Seq<char>| cap_word(w)));
    }
    let joined = join_chars(&capped, &joiner);
    chars_to_string(&joined)
}

/// Concrete-typed companion of `capwords` for generated callers: a pure
/// delegating call with the same contract.
pub fn capwords_wrapper(s: String, sep: Option<String>) -> (r: String)
    ensures
        r@ == capwords_spec(
            s@,
            match sep {
                Some(sp) => Some(sp@),
                None => None,
            },
        ),
{
    capwords(s, sep)
}

/// Concrete-typed companion of `capwords` for the foreign embedding
/// boundary: a pure delegating call with the same contract.
pub fn capwords_py(s: String, sep: Option<String>) -> (r: String)
    ensures
        r@ == capwords_spec(
            s@,
            match sep {
                Some(sp) => Some(sp@),
                None => None,
            },
        ),
{
    capwords(s, sep)
}

/// The `$name` form of a template variable.
pub open spec fn simple_var(delim: char, key: Seq<char>) -> Seq<char> {
    seq![delim] + key
}

/// The `${name}` form of a template variable.
pub open spec fn braced_var(delim: char, key: Seq<char>) -> Seq<char> {
    seq![delim, '{'] + key + seq!['}']
}

/// One substitution pass for one mapping entry: the `$name` form first,
/// then the `${name}` form.
pub open spec fn subst_entry(s: Seq<char>, delim: char, key: Seq<char>, val: Seq<char>) -> Seq<
    char,
> {
    replace_spec(replace_spec(s, simple_var(delim, key), val), braced_var(delim, key), val)
}

/// The template text after substituting the mapping entries in order.
pub open spec fn subst_all(
    s: Seq<char>,
    delim: char,
    mapping: Seq<(Seq<char>, Seq<char>)>,
    i: int,
) -> Seq<char>
    decreases mapping.len() - i,
{
    if i < 0 || i >= mapping.len() {
        s
    } else {
        subst_all(subst_entry(s, delim, mapping[i].0, mapping[i].1), delim, mapping, i + 1)
    }
}

/// Whether `c` can begin an identifier.
pub open spec fn is_ident_start(c: char) -> bool {
    ('a' <= c && c <= 'z') || ('A' <= c && c <= 'Z') || c == '_'
}

/// Whether `c` can continue an identifier.
pub open spec fn is_ident_char(c: char) -> bool {
    is_ident_start(c) || ('0' <= c && c <= '9')
}

/// The end of the identifier starting at `i`.
pub open spec fn ident_end(s: Seq<char>, i: int) -> int
    decreases s.len() - i,
{
    if 0 <= i < s.len() && is_ident_char(s[i]) {
        ident_end(s, i + 1)
    } else {
        i
    }
}

/// Where `find_char` finds: the first `c` at or after `i`.
pub proof fn lemma_find_char_props(s: Seq<char>, c: char, i: int)
    requires
        0 <= i,
    ensures
        match find_char(s, c, i) {
            Some(j) => i <= j < s.len() && s[j] == c,
            None => true,
        },
    decreases s.len() - i + 1,
{
    if i < s.len() && s[i] != c {
        lemma_find_char_props(s, c, i + 1);
    }
}

/// `ident_end` stays within the string and never moves left.
pub proof fn lemma_ident_end_props(s: Seq<char>, i: int)
    requires
        0 <= i <= s.len(),
    ensures
        i <= ident_end(s, i) <= s.len(),
    decreases s.len() - i,
{
    if i < s.len() && is_ident_char(s[i]) {
        lemma_ident_end_props(s, i + 1);
    }
}

/// The first position at or after `i` holding character `c`, if any.
pub open spec fn find_char(s: Seq<char>, c: char, i: int) -> Option<int>
    decreases s.len() - i,
{
    if i < 0 || i >= s.len() {
        None
    } else if s[i] == c {
        Some(i)
    } else {
        find_char(s, c, i + 1)
    }
}

/// The first variable reference in `s` whose name is not in `used`,
/// scanning like the validation pass of `substitute`: `${name}` between
/// braces, `$name` for an identifier, anything else skipped.
pub open spec fn first_missing_var(
    s: Seq<char>,
    delim: char,
    used: Set<Seq<char>>,
    i: int,
) -> Option<Seq<char>>
    decreases s.len() - i,
{
    if i < 0 || i >= s.len() {
        None
    } else if s[i] == delim && i + 1 < s.len() && s[i + 1] == '{' {
        match find_char(s, '}', i + 2) {
            Some(j) => if i + 2 <= j < s.len() {
                let var = s.subrange(i + 2, j);
                if !used.contains(var) {
                    Some(var)
                } else {
                    first_missing_var(s, delim, used, j + 1)
                }
            } else {
                None
            },
            None => first_missing_var(s, delim, used, i + 1),
        }
    } else if s[i] == delim && i + 1 < s.len() && is_ident_start(s[i + 1]) {
        let e = ident_end(s, i + 2);
        if i + 2 <= e <= s.len() {
            let var = s.subrange(i + 1, e);
            if !used.contains(var) {
                Some(var)
            } else {
                first_missing_var(s, delim, used, e)
            }
        } else {
            None
        }
    } else {
        first_missing_var(s, delim, used, i + 1)
    }
}

/// Whether some mapping entry carries the key.
pub open spec fn mapping_has_key(gmap: Seq<(Seq<char>, Seq<char>)>, k: Seq<char>) -> bool {
    exists|i: int| 0 <= i < gmap.len() && (#[trigger] gmap[i].0) == k
}

/// A simple `$`-substitution template.
#[derive(Debug, Clone)]
pub struct Template {
    template: Vec<char>,
    delimiter: char,
}

impl Template {
    /// The template's text.
    pub closed spec fn text(&self) -> Seq<char> {
        self.template@
    }

    /// The template's delimiter character.
    pub closed spec fn delim(&self) -> char {
        self.delimiter
    }

    /// A template over the default `$` delimiter.
    pub fn new<S: AsStrLike>(template: S) -> (r: Template)
        ensures
            r.text() == template.str_view(),
            r.delim() == '$',
    {
        Template { template: str_to_chars(template.as_str_like()), delimiter: '$' }
    }

    /// A template with a custom delimiter.
    pub fn with_delimiter<S: AsStrLike>(template: S, delimiter: char) -> (r: Template)
        ensures
            r.text() == template.str_view(),
            r.delim() == delimiter,
    {
        Template { template: str_to_chars(template.as_str_like()), delimiter }
    }

    /// The template text.
    pub fn template_string(&self) -> (r: String)
        ensures
            r@ == self.text(),
    {
        chars_to_string(&self.template)
    }

    /// The delimiter.
    pub fn delimiter(&self) -> (r: char)
        ensures
            r == self.delim(),
    {
        self.delimiter
    }

    /// Substitute every mapping entry, without checking for unreplaced
    /// variables.
    pub fn safe_substitute(&self, mapping: &Vec<(String, String)>) -> (r: String)
        ensures
            r@ == subst_all(
                self.text(),
                self.delim(),
                mapping@.map_values(|kv: (String, String)| (kv.0@, kv.1@)),
                0,
            ),
    {
        let ghost gmap = mapping@.map_values(|kv: (String, String)| (kv.0@, kv.1@));
        let mut cur: Vec<char> = self.template.clone();
        assert(cur@ == self.text());
        let mut i: usize = 0;
        while i < mapping.len()
            invariant
                i <= mapping@.len(),
                gmap == mapping@.map_values(|kv: (String, String)| (kv.0@, kv.1@)),
                subst_all(self.text(), self.delim(), gmap, 0)
                    == subst_all(cur@, self.delim(), gmap, i as int),
            decreases mapping@.len() - i,
        {
            let stepped = self.subst_entry_exec(&cur, &mapping[i].0, &mapping[i].1);
            proof {
                assert(gmap[i as int] == (mapping@[i as int].0@, mapping@[i as int].1@));
            }
            cur = stepped;
            i += 1;
        }
        chars_to_string(&cur)
    }

    /// One substitution pass for one entry.
    fn subst_entry_exec(&self, cur: &Vec<char>, key: &String, val: &String) -> (r: Vec<char>)
        ensures
            r@ == subst_entry(cur@, self.delim(), key@, val@),
    {
        let key_chars = str_to_chars(key.as_str());
        let val_chars = str_to_chars(val.as_str());
        let mut simple: Vec<char> = Vec::new();
        simple.push(self.delimiter);
        strutil::push_all(&mut simple, &key_chars);
        assert(simple@ =~= simple_var(self.delim(), key@));
        let mut braced: Vec<char> = Vec::new();
        braced.push(self.delimiter);
        braced.push('{');
        strutil::push_all(&mut braced, &key_chars);
        braced.push('}');
        assert(braced@ =~= braced_var(self.delim(), key@));
        let once = replace_chars(cur, &simple, &val_chars);
        let twice = replace_chars(&once, &braced, &val_chars);
        twice
    }

    /// Substitute every mapping entry; if a variable reference remains
    /// whose name is not among the mapping's keys, report it as a key
    /// error.
    pub fn substitute(&self, mapping: &Vec<(String, String)>) -> (r: Result<String, PyException>)
        ensures
            ({
                let gmap = mapping@.map_values(|kv: (String, String)| (kv.0@, kv.1@));
                let done = subst_all(self.text(), self.delim(), gmap, 0);
                let keyset = Set::new(
                    |k: Seq<char>| exists|i: int| 0 <= i < gmap.len() && gmap[i].0 == k,
                );
                match first_missing_var(done, self.delim(), keyset, 0) {
                    None => r is Ok && r.unwrap()@ == done,
                    Some(var) => r is Err && r.unwrap_err().exception_type@ == "KeyError"@
                        && r.unwrap_err().message@ == "'"@ + var + "' variable not provided"@,
                }
            }),
    {
        let ghost gmap = mapping@.map_values(|kv: (String, String)| (kv.0@, kv.1@));
        let ghost keyset = Set::new(
            |k: Seq<char>| exists|i: int| 0 <= i < gmap.len() && gmap[i].0 == k,
        );
        let mut cur: Vec<char> = self.template.clone();
        assert(cur@ == self.text());
        let mut i: usize = 0;
        while i < mapping.len()
            invariant
                i <= mapping@.len(),
                gmap == mapping@.map_values(|kv: (String, String)| (kv.0@, kv.1@)),
                subst_all(self.text(), self.delim(), gmap, 0)
                    == subst_all(cur@, self.delim(), gmap, i as int),
            decreases mapping@.len() - i,
        {
            let stepped = self.subst_entry_exec(&cur, &mapping[i].0, &mapping[i].1);
            proof {
                assert(gmap[i as int] == (mapping@[i as int].0@, mapping@[i as int].1@));
            }
            cur = stepped;
            i += 1;
        }
        let ghost done = cur@;
        // scan for a remaining variable reference with an unknown name
        let mut pos: usize = 0;
        loop
            invariant
                pos <= cur@.len(),
                cur@.len() <= usize::MAX,
                cur@ == done,
                gmap == mapping@.map_values(|kv: (String, String)| (kv.0@, kv.1@)),
                keyset == Set::new(
                    |k: Seq<char>| exists|i: int| 0 <= i < gmap.len() && gmap[i].0 == k,
                ),
                done == subst_all(self.text(), self.delim(), gmap, 0),
                first_missing_var(done, self.delim(), keyset, 0)
                    == first_missing_var(done, self.delim(), keyset, pos as int),
            decreases cur@.len() - pos,
        {
            if pos >= cur.len() {
                return Ok(chars_to_string(&cur));
            }
            let c = cur[pos];
            if c == self.delimiter && pos + 1 < cur.len() && cur[pos + 1] == '{' {
                // find the closing brace
                let mut e: usize = pos + 2;
                while e < cur.len() && cur[e] != '}'
                    invariant
                        pos + 2 <= e <= cur@.len(),
                        cur@.len() <= usize::MAX,
                        forall|t: int| pos + 2 <= t < e ==> cur@[t] != '}',
                        find_char(cur@, '}', (pos + 2) as int) == find_char(cur@, '}', e as int),
                    decreases cur@.len() - e,
                {
                    proof {
                        assert(find_char(cur@, '}', e as int) == find_char(cur@, '}', e + 1));
                    }
                    e += 1;
                }
                if e < cur.len() {
                    proof {
                        assert(find_char(cur@, '}', e as int) == Some(e as int));
                        lemma_find_char_props(cur@, '}', (pos + 2) as int);
                    }
                    let mut var: Vec<char> = Vec::new();
                    let mut t: usize = pos + 2;
                    while t < e
                        invariant
                            pos + 2 <= t <= e,
                            e < cur@.len(),
                            cur@ == done,
                            var@ == cur@.subrange(pos + 2, t as int),
                        decreases e - t,
                    {
                        var.push(cur[t]);
                        assert(var@ =~= cur@.subrange(pos + 2, t + 1));
                        t += 1;
                    }
                    proof {
                        assert forall|k: Seq<char>| #![trigger keyset.contains(k)]
                            keyset.contains(k) <==> mapping_has_key(gmap, k) by {}
                    }
                    if !self.key_in_mapping(&var, mapping, Ghost(gmap), Ghost(keyset)) {
                        proof {
                            assert(first_missing_var(done, self.delim(), keyset, pos as int)
                                == Some(var@));
                        }
                        let mut msg = String::new();
                        msg.append("'");
                        let var_s = chars_to_string(&var);
                        msg.append(var_s.as_str());
                        msg.append("' variable not provided");
                        assert(msg@ =~= "'"@ + var@ + "' variable not provided"@);
                        return Err(key_error(msg.as_str()));
                    }
                    proof {
                        assert(first_missing_var(done, self.delim(), keyset, pos as int)
                            == first_missing_var(done, self.delim(), keyset, e + 1));
                    }
                    pos = e + 1;
                } else {
                    proof {
                        assert(find_char(cur@, '}', (pos + 2) as int) is None);
                        assert(first_missing_var(done, self.delim(), keyset, pos as int)
                            == first_missing_var(done, self.delim(), keyset, pos + 1));
                    }
                    pos += 1;
                }
            } else if c == self.delimiter && pos + 1 < cur.len()
                && is_ident_start_exec(cur[pos + 1]) {
                // find the end of the identifier
                let mut e: usize = pos + 2;
                while e < cur.len() && is_ident_char_exec(cur[e])
                    invariant
                        pos + 2 <= e <= cur@.len(),
                        cur@.len() <= usize::MAX,
                        ident_end(cur@, (pos + 2) as int) == ident_end(cur@, e as int),
                    decreases cur@.len() - e,
                {
                    proof {
                        assert(ident_end(cur@, e as int) == ident_end(cur@, e + 1));
                    }
                    e += 1;
                }
                proof {
                    assert(ident_end(cur@, e as int) == e as int);
                    lemma_ident_end_props(cur@, (pos + 2) as int);
                }
                let mut var: Vec<char> = Vec::new();
                let mut t: usize = pos + 1;
                while t < e
                    invariant
                        pos + 1 <= t <= e,
                        e <= cur@.len(),
                        cur@ == done,
                        var@ == cur@.subrange(pos + 1, t as int),
                    decreases e - t,
                {
                    var.push(cur[t]);
                    assert(var@ =~= cur@.subrange(pos + 1, t + 1));
                    t += 1;
                }
                proof {
                    assert forall|k: Seq<char>| #![trigger keyset.contains(k)]
                        keyset.contains(k) <==> mapping_has_key(gmap, k) by {}
                }
                if !self.key_in_mapping(&var, mapping, Ghost(gmap), Ghost(keyset)) {
                    proof {
                        assert(first_missing_var(done, self.delim(), keyset, pos as int)
                            == Some(var@));
                    }
                    let mut msg = String::new();
                    msg.append("'");
                    let var_s = chars_to_string(&var);
                    msg.append(var_s.as_str());
                    msg.append("' variable not provided");
                    assert(msg@ =~= "'"@ + var@ + "' variable not provided"@);
                    return Err(key_error(msg.as_str()));
                }
                proof {
                    assert(first_missing_var(done, self.delim(), keyset, pos as int)
                        == first_missing_var(done, self.delim(), keyset, e as int));
                }
                pos = e;
            } else {
                proof {
                    assert(first_missing_var(done, self.delim(), keyset, pos as int)
                        == first_missing_var(done, self.delim(), keyset, pos + 1));
                }
                pos += 1;
            }
        }
    }

    /// Whether `var` is one of the mapping's keys.
    fn key_in_mapping(
        &self,
        var: &Vec<char>,
        mapping: &Vec<(String, String)>,
        Ghost(gmap): Ghost<Seq<(Seq<char>, Seq<char>)>>,
        Ghost(keyset): Ghost<Set<Seq<char>>>,
    ) -> (r: bool)
        requires
            gmap == mapping@.map_values(|kv: (String, String)| (kv.0@, kv.1@)),
            forall|k: Seq<char>| #![trigger keyset.contains(k)]
                keyset.contains(k) <==> mapping_has_key(gmap, k),
        ensures
            r == keyset.contains(var@),
    {
        let mut i: usize = 0;
        while i < mapping.len()
            invariant
                i <= mapping@.len(),
                gmap == mapping@.map_values(|kv: (String, String)| (kv.0@, kv.1@)),
                forall|k: Seq<char>| #![trigger keyset.contains(k)]
                    keyset.contains(k) <==> mapping_has_key(gmap, k),
                forall|k: int| 0 <= k < i ==> #[trigger] gmap[k].0 != var@,
            decreases mapping@.len() - i,
        {
            let key_chars = str_to_chars(mapping[i].0.as_str());
            if strutil::chars_eq(&key_chars, var) {
                proof {
                    assert(0 <= i as int && (i as int) < gmap.len() && gmap[i as int].0 == var@);
                    assert(mapping_has_key(gmap, var@));
                    assert(keyset.contains(var@));
                }
                return true;
            }
            i += 1;
        }
        proof {
            if keyset.contains(var@) {
                assert(mapping_has_key(gmap, var@));
                let w = choose|w: int| 0 <= w < gmap.len() && (#[trigger] gmap[w].0) == var@;
                assert(false);
            }
        }
        false
    }
}


/// The template after replacing `{key}` for each mapping pair, in order.
pub open spec fn format_map_from(
    s: Seq<char>,
    pairs: Seq<(Seq<char>, Seq<char>)>,
    i: int,
) -> Seq<char>
    decreases pairs.len() - i,
{
    if i < 0 || i >= pairs.len() {
        s
    } else {
        format_map_from(
            replace_spec(s, seq!['{'] + pairs[i].0 + seq!['}'], pairs[i].1),
            pairs,
            i + 1,
        )
    }
}

/// The placeholders of a format string, or the message of the brace error:
/// `{{` and `}}` are escapes, `{...}` collects a placeholder, a bare brace
/// is unmatched.
pub open spec fn vformat_spec(s: Seq<char>, i: int) -> Result<Seq<Seq<char>>, Seq<char>>
    decreases s.len() - i,
{
    if i < 0 || i >= s.len() {
        Result::Ok(Seq::empty())
    } else if s[i] == '{' {
        if i + 1 < s.len() && s[i + 1] == '{' {
            vformat_spec(s, i + 2)
        } else {
            match find_char(s, '}', i + 1) {
                Some(j) => if i + 1 <= j < s.len() {
                    match vformat_spec(s, j + 1) {
                        Result::Ok(rest) => Result::Ok(seq![s.subrange(i + 1, j)] + rest),
                        Result::Err(e) => Result::Err(e),
                    }
                } else {
                    Result::Err("Unmatched '{' in format string"@)
                },
                None => Result::Err("Unmatched '{' in format string"@),
            }
        }
    } else if s[i] == '}' {
        if i + 1 < s.len() && s[i + 1] == '}' {
            vformat_spec(s, i + 2)
        } else {
            Result::Err("Unmatched '}' in format string"@)
        }
    } else {
        vformat_spec(s, i + 1)
    }
}

/// String formatting operations over positional and named placeholders.
#[derive(Debug)]
pub struct Formatter {}

impl Formatter {
    /// Substitute the positional placeholders `{0}`, `{1}`, … with the
    /// given arguments.
    pub fn format<S: AsStrLike>(template: S, args: &Vec<String>) -> (r: String)
        ensures
            r@ == format_from(template.str_view(), args@.map_values(|a: String| a@), 0),
    {
        crate::builtins::format_string(template, args)
    }

    /// Substitute the named placeholder `{key}` for each mapping pair.
    pub fn format_map<S: AsStrLike>(template: S, kwargs: &Vec<(String, String)>) -> (r: String)
        ensures
            r@ == format_map_from(
                template.str_view(),
                kwargs@.map_values(|kv: (String, String)| (kv.0@, kv.1@)),
                0,
            ),
    {
        let ghost gpairs = kwargs@.map_values(|kv: (String, String)| (kv.0@, kv.1@));
        let mut cur: Vec<char> = str_to_chars(template.as_str_like());
        let ghost t0 = cur@;
        let mut i: usize = 0;
        while i < kwargs.len()
            invariant
                i <= kwargs@.len(),
                gpairs == kwargs@.map_values(|kv: (String, String)| (kv.0@, kv.1@)),
                format_map_from(t0, gpairs, 0) == format_map_from(cur@, gpairs, i as int),
            decreases kwargs@.len() - i,
        {
            let key_chars = str_to_chars(kwargs[i].0.as_str());
            let val_chars = str_to_chars(kwargs[i].1.as_str());
            let mut ph: Vec<char> = Vec::new();
            ph.push('{');
            strutil::push_all(&mut ph, &key_chars);
            ph.push('}');
            proof {
                assert(gpairs[i as int] == (kwargs@[i as int].0@, kwargs@[i as int].1@));
                assert(ph@ =~= seq!['{'] + gpairs[i as int].0 + seq!['}']);
            }
            let replaced = replace_chars(&cur, &ph, &val_chars);
            cur = replaced;
            i += 1;
        }
        chars_to_string(&cur)
    }

    /// Collect the placeholders of a format string; a bare unescaped brace
    /// is a value error.
    pub fn vformat<S: AsStrLike>(template: S) -> (r: Result<Vec<String>, PyException>)
        ensures
            match vformat_spec(template.str_view(), 0) {
                Result::Ok(list) => r is Ok && r.unwrap()@.map_values(|p: String| p@) == list,
                Result::Err(m) => r is Err && r.unwrap_err().exception_type@ == "ValueError"@
                    && r.unwrap_err().message@ == m,
            },
    {
        let s = str_to_chars(template.as_str_like());
        let mut acc: Vec<String> = Vec::new();
        let mut i: usize = 0;
        proof {
            assert(Seq::<Seq<char>>::empty() + vformat_spec(s@, 0)->Ok_0
                =~= vformat_spec(s@, 0)->Ok_0);
        }
        loop
            invariant
                i <= s@.len(),
                s@.len() <= usize::MAX,
                s@ == template.str_view(),
                vformat_spec(s@, 0) == match vformat_spec(s@, i as int) {
                    Result::Ok(rest) => Result::<Seq<Seq<char>>, Seq<char>>::Ok(
                        acc@.map_values(|p: String| p@) + rest,
                    ),
                    Result::Err(e) => Result::<Seq<Seq<char>>, Seq<char>>::Err(e),
                },
            decreases s@.len() - i,
        {
            if i >= s.len() {
                proof {
                    assert(acc@.map_values(|p: String| p@) + Seq::<Seq<char>>::empty()
                        =~= acc@.map_values(|p: String| p@));
                }
                return Ok(acc);
            }
            let c = s[i];
            if c == '{' {
                if i + 1 < s.len() && s[i + 1] == '{' {
                    i += 2;
                } else {
                    // find the closing brace
                    let mut e: usize = i + 1;
                    while e < s.len() && s[e] != '}'
                        invariant
                            i + 1 <= e <= s@.len(),
                            s@.len() <= usize::MAX,
                            find_char(s@, '}', (i + 1) as int) == find_char(s@, '}', e as int),
                        decreases s@.len() - e,
                    {
                        proof {
                            assert(find_char(s@, '}', e as int) == find_char(s@, '}', e + 1));
                        }
                        e += 1;
                    }
                    if e >= s.len() {
                        proof {
                            assert(find_char(s@, '}', (i + 1) as int) is None);
                        }
                        return Err(value_error("Unmatched '{' in format string"));
                    }
                    proof {
                        assert(find_char(s@, '}', e as int) == Some(e as int));
                    }
                    let mut ph: Vec<char> = Vec::new();
                    let mut t: usize = i + 1;
                    while t < e
                        invariant
                            i + 1 <= t <= e,
                            e < s@.len(),
                            ph@ == s@.subrange(i + 1, t as int),
                        decreases e - t,
                    {
                        ph.push(s[t]);
                        assert(ph@ =~= s@.subrange(i + 1, t + 1));
                        t += 1;
                    }
                    let ghost acc_before = acc@;
                    acc.push(chars_to_string(&ph));
                    proof {
                        assert(acc@.map_values(|p: String| p@)
                            =~= acc_before.map_values(|p: String| p@).push(s@.subrange(i + 1, e as int)));
                        if vformat_spec(s@, e + 1) is Ok {
                            assert(acc_before.map_values(|p: String| p@)
                                + (seq![s@.subrange(i + 1, e as int)] + vformat_spec(s@, e + 1)->Ok_0)
                                =~= acc@.map_values(|p: String| p@) + vformat_spec(s@, e + 1)->Ok_0);
                        }
                    }
                    i = e + 1;
                }
            } else if c == '}' {
                if i + 1 < s.len() && s[i + 1] == '}' {
                    i += 2;
                } else {
                    return Err(value_error("Unmatched '}' in format string"));
                }
            } else {
                i += 1;
            }
        }
    }
}


/// Law: a generated companion is a pure delegating call.  A decorated
/// function and both its companions carry one and the same specification
/// of their result, so on equal arguments all three yield one value; this
/// lemma records that the specification pins the result uniquely.
pub proof fn lemma_companions_agree(
    s: Seq<char>,
    sep: Option<Seq<char>>,
    a: Seq<char>,
    b: Seq<char>,
)
    requires
        a == capwords_spec(s, sep),
        b == capwords_spec(s, sep),
    ensures
        a == b,
{
}

} // verus!
