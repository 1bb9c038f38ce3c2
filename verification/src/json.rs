//! The JSON codec: a value model, an encoder and a recursive-descent
//! decoder, with the encoding and the accepted grammar stated as spec
//! functions.
//!
//! A plain integer numeral in the 64-bit range parses to `Number`; any
//! other well-formed numeral — one with a fraction or an exponent, or one
//! beyond the integer range — is kept verbatim as a `Decimal`, so such
//! documents round-trip textually.  Arithmetic on decimals is the
//! embedding program's concern.

use vstd::prelude::*;
use crate::exceptions::PyException;
use crate::exceptions::value_error;
use crate::numstr::dec_digits;
use crate::numstr::digit_val;
use crate::numstr::int_dec_str;
use crate::numstr::is_digit_char;
use crate::numstr::digits_val;
use crate::numstr::i64_to_chars;
use crate::strutil::chars_to_string;
use crate::strutil::str_to_chars;

verus! {

/// Any JSON value.  A `Decimal` carries a numeral's text verbatim; it
/// should hold a well-formed JSON number, as the decoder produces.
#[derive(Debug)]
pub enum JSONValue {
    Null,
    Bool(bool),
    Number(i64),
    Decimal(String),
    String(String),
    Array(Vec<JSONValue>),
    Object(Vec<(String, JSONValue)>),
}

impl JSONValue {
    /// Whether this is the null value.
    pub fn is_null(&self) -> (r: bool)
        ensures
            r == (self is Null),
    {
        matches!(self, JSONValue::Null)
    }

    /// Whether this is a boolean.
    pub fn is_bool(&self) -> (r: bool)
        ensures
            r == (self is Bool),
    {
        matches!(self, JSONValue::Bool(_))
    }

    /// Whether this is an integer number.
    pub fn is_number(&self) -> (r: bool)
        ensures
            r == (self is Number),
    {
        matches!(self, JSONValue::Number(_))
    }

    /// Whether this is a numeral kept as text.
    pub fn is_decimal(&self) -> (r: bool)
        ensures
            r == (self is Decimal),
    {
        matches!(self, JSONValue::Decimal(_))
    }

    /// Whether this is a string.
    pub fn is_string(&self) -> (r: bool)
        ensures
            r == (self is String),
    {
        matches!(self, JSONValue::String(_))
    }

    /// Whether this is an array.
    pub fn is_array(&self) -> (r: bool)
        ensures
            r == (self is Array),
    {
        matches!(self, JSONValue::Array(_))
    }

    /// Whether this is an object.
    pub fn is_object(&self) -> (r: bool)
        ensures
            r == (self is Object),
    {
        matches!(self, JSONValue::Object(_))
    }

    /// The boolean inside, when this is one.
    pub fn as_bool(&self) -> (r: Option<bool>)
        ensures
            match r {
                Some(b) => self == JSONValue::Bool(b),
                None => !(self is Bool),
            },
    {
        if let JSONValue::Bool(b) = self {
            Some(*b)
        } else {
            None
        }
    }

    /// The number inside, when this is one.
    pub fn as_number(&self) -> (r: Option<i64>)
        ensures
            match r {
                Some(n) => self == JSONValue::Number(n),
                None => !(self is Number),
            },
    {
        if let JSONValue::Number(n) = self {
            Some(*n)
        } else {
            None
        }
    }

    /// The numeral text inside, when this is a decimal.
    pub fn as_decimal(&self) -> (r: Option<&String>)
        ensures
            match r {
                Some(d) => self is Decimal && d == self->Decimal_0,
                None => !(self is Decimal),
            },
    {
        if let JSONValue::Decimal(d) = self {
            Some(d)
        } else {
            None
        }
    }

    /// The string inside, when this is one.
    pub fn as_string(&self) -> (r: Option<&String>)
        ensures
            match r {
                Some(s) => self is String && s == self->String_0,
                None => !(self is String),
            },
    {
        if let JSONValue::String(s) = self {
            Some(s)
        } else {
            None
        }
    }

    /// The element buffer, when this is an array.
    pub fn as_array(&self) -> (r: Option<&Vec<JSONValue>>)
        ensures
            match r {
                Some(a) => self is Array && a == self->Array_0,
                None => !(self is Array),
            },
    {
        if let JSONValue::Array(a) = self {
            Some(a)
        } else {
            None
        }
    }

    /// The member pairs, when this is an object.
    pub fn as_object(&self) -> (r: Option<&Vec<(String, JSONValue)>>)
        ensures
            match r {
                Some(o) => self is Object && o == self->Object_0,
                None => !(self is Object),
            },
    {
        if let JSONValue::Object(o) = self {
            Some(o)
        } else {
            None
        }
    }
}

/// The hexadecimal digit character for a value in `0..=15`, lower case.
pub open spec fn hex_digit(d: int) -> char {
    if d < 10 {
        crate::numstr::digit_char(d)
    } else if d == 10 { 'a' }
    else if d == 11 { 'b' }
    else if d == 12 { 'c' }
    else if d == 13 { 'd' }
    else if d == 14 { 'e' }
    else { 'f' }
}

/// A four-digit lower-case hexadecimal rendering of a code point.
pub open spec fn hex4(cp: int) -> Seq<char> {
    seq![
        hex_digit((cp / 4096) % 16),
        hex_digit((cp / 256) % 16),
        hex_digit((cp / 16) % 16),
        hex_digit(cp % 16),
    ]
}

/// Whether a character is a control character that must be escaped.
pub open spec fn is_control_char(c: char) -> bool {
    (c as int) < 32 || (127 <= c as int && c as int <= 159)
}

/// How one character appears inside a JSON string literal.
pub open spec fn escape_json_char(c: char) -> Seq<char> {
    if c == '"' { seq!['\\', '"'] }
    else if c == '\\' { seq!['\\', '\\'] }
    else if c == '\u{8}' { seq!['\\', 'b'] }
    else if c == '\u{c}' { seq!['\\', 'f'] }
    else if c == '\n' { seq!['\\', 'n'] }
    else if c == '\r' { seq!['\\', 'r'] }
    else if c == '\t' { seq!['\\', 't'] }
    else if is_control_char(c) { seq!['\\', 'u'] + hex4(c as int) }
    else { seq![c] }
}

/// How a whole string appears inside a JSON string literal.
pub open spec fn escape_json(s: Seq<char>) -> Seq<char>
    decreases s.len(),
{
    if s.len() == 0 {
        Seq::empty()
    } else {
        escape_json_char(s[0]) + escape_json(s.skip(1))
    }
}

/// Character-sequence order: shorter-or-equal prefixes first, otherwise by
/// the first differing character.
pub open spec fn lex_le(a: Seq<char>, b: Seq<char>) -> bool
    decreases a.len(),
{
    if a.len() == 0 {
        true
    } else if b.len() == 0 {
        false
    } else if a[0] != b[0] {
        a[0] < b[0]
    } else {
        lex_le(a.skip(1), b.skip(1))
    }
}

/// The identity order on `n` positions.
pub open spec fn iota(n: int) -> Seq<int> {
    Seq::new(clamp_pos(n) as nat, |k: int| k)
}

/// Insert position `ix` into an order already sorted by member key,
/// keeping it after equal keys.
pub open spec fn insert_idx(ord: Seq<int>, obj: Seq<(String, JSONValue)>, ix: int) -> Seq<int>
    decreases ord.len(),
{
    if ord.len() == 0 {
        seq![ix]
    } else if 0 <= ord[0] < obj.len() && 0 <= ix < obj.len()
        && lex_le(obj[ord[0]].0@, obj[ix].0@) {
        seq![ord[0]] + insert_idx(ord.skip(1), obj, ix)
    } else {
        seq![ix] + ord
    }
}

/// The order that visits the first `i` members sorted by key (stable).
pub open spec fn sort_perm(obj: Seq<(String, JSONValue)>, i: int) -> Seq<int>
    decreases i,
{
    if i <= 0 {
        Seq::empty()
    } else {
        insert_idx(sort_perm(obj, i - 1), obj, i - 1)
    }
}

/// The compact encoding of a value: members in declaration order, or
/// sorted by key when `sorted` is set; no added spaces beyond the
/// configured separators.
pub open spec fn encode_spec(
    v: JSONValue,
    item_sep: Seq<char>,
    key_sep: Seq<char>,
    sorted: bool,
) -> Seq<char>
    decreases v, 0int, 0int,
{
    match v {
        JSONValue::Null => "null"@,
        JSONValue::Bool(b) => if b { "true"@ } else { "false"@ },
        JSONValue::Number(n) => int_dec_str(n as int),
        JSONValue::Decimal(d) => d@,
        JSONValue::String(s) => seq!['"'] + escape_json(s@) + seq!['"'],
        JSONValue::Array(arr) => seq!['['] + encode_items(arr@, 0, item_sep, key_sep, sorted)
            + seq![']'],
        JSONValue::Object(obj) => seq!['{'] + encode_members(
            obj@,
            if sorted {
                sort_perm(obj@, obj@.len() as int)
            } else {
                iota(obj@.len() as int)
            },
            0,
            item_sep,
            key_sep,
            sorted,
        ) + seq!['}'],
    }
}

/// The elements of an array from `i` on, separated by `item_sep`.
pub open spec fn encode_items(
    elems: Seq<JSONValue>,
    i: int,
    item_sep: Seq<char>,
    key_sep: Seq<char>,
    sorted: bool,
) -> Seq<char>
    decreases elems, 1int, elems.len() - i,
{
    if i < 0 || i >= elems.len() {
        Seq::empty()
    } else {
        (if i > 0 {
            item_sep
        } else {
            Seq::empty()
        }) + encode_spec(elems[i], item_sep, key_sep, sorted)
            + encode_items(elems, i + 1, item_sep, key_sep, sorted)
    }
}

/// The members of an object visited in the order `perm` gives, from `k`
/// on: quoted escaped key, the key separator, then the value, all
/// separated by `item_sep`.
pub open spec fn encode_members(
    obj: Seq<(String, JSONValue)>,
    perm: Seq<int>,
    k: int,
    item_sep: Seq<char>,
    key_sep: Seq<char>,
    sorted: bool,
) -> Seq<char>
    decreases obj, 1int, perm.len() - k,
{
    if k < 0 || k >= perm.len() {
        Seq::empty()
    } else if 0 <= perm[k] < obj.len() {
        (if k > 0 {
            item_sep
        } else {
            Seq::empty()
        }) + seq!['"'] + escape_json(obj[perm[k]].0@) + seq!['"'] + key_sep
            + encode_spec(obj[perm[k]].1, item_sep, key_sep, sorted)
            + encode_members(obj, perm, k + 1, item_sep, key_sep, sorted)
    } else {
        encode_members(obj, perm, k + 1, item_sep, key_sep, sorted)
    }
}

/// Exec escaping of one character, appended to `out`.
fn push_escaped_char(c: char, out: &mut Vec<char>)
    ensures
        final(out)@ == old(out)@ + escape_json_char(c),
{
    if c == '"' {
        out.push('\\');
        out.push('"');
        assert(final(out)@ =~= old(out)@ + escape_json_char(c));
    } else if c == '\\' {
        out.push('\\');
        out.push('\\');
        assert(final(out)@ =~= old(out)@ + escape_json_char(c));
    } else if c == '\u{8}' {
        out.push('\\');
        out.push('b');
        assert(final(out)@ =~= old(out)@ + escape_json_char(c));
    } else if c == '\u{c}' {
        out.push('\\');
        out.push('f');
        assert(final(out)@ =~= old(out)@ + escape_json_char(c));
    } else if c == '\n' {
        out.push('\\');
        out.push('n');
        assert(final(out)@ =~= old(out)@ + escape_json_char(c));
    } else if c == '\r' {
        out.push('\\');
        out.push('r');
        assert(final(out)@ =~= old(out)@ + escape_json_char(c));
    } else if c == '\t' {
        out.push('\\');
        out.push('t');
        assert(final(out)@ =~= old(out)@ + escape_json_char(c));
    } else if (c as u32) < 32 || (127 <= c as u32 && c as u32 <= 159) {
        out.push('\\');
        out.push('u');
        let cp = c as u32;
        out.push(hex_digit_exec((cp / 4096) % 16));
        out.push(hex_digit_exec((cp / 256) % 16));
        out.push(hex_digit_exec((cp / 16) % 16));
        out.push(hex_digit_exec(cp % 16));
        assert(final(out)@ =~= old(out)@ + escape_json_char(c));
    } else {
        out.push(c);
        assert(final(out)@ =~= old(out)@ + escape_json_char(c));
    }
}

/// Exec form of `hex_digit`.
fn hex_digit_exec(d: u32) -> (c: char)
    requires
        d < 16,
    ensures
        c == hex_digit(d as int),
{
    if d < 10 {
        crate::numstr::digit_to_char(d as u64)
    } else if d == 10 { 'a' }
    else if d == 11 { 'b' }
    else if d == 12 { 'c' }
    else if d == 13 { 'd' }
    else if d == 14 { 'e' }
    else { 'f' }
}

/// Append the escaped form of a whole string.
fn push_escaped(s: &Vec<char>, out: &mut Vec<char>)
    ensures
        final(out)@ == old(out)@ + escape_json(s@),
{
    let mut i: usize = 0;
    proof {
        assert(s@.skip(0) =~= s@);
        assert(old(out)@ + Seq::<char>::empty() =~= old(out)@);
    }
    while i < s.len()
        invariant
            i <= s@.len(),
            out@ + escape_json(s@.skip(i as int)) == old(out)@ + escape_json(s@),
        decreases s@.len() - i,
    {
        let ghost rest = s@.skip(i as int);
        proof {
            assert(rest[0] == s@[i as int]);
            assert(rest.skip(1) =~= s@.skip(i + 1));
        }
        push_escaped_char(s[i], out);
        i += 1;
    }
    assert(s@.skip(s@.len() as int) =~= Seq::<char>::empty());
    assert(out@ =~= old(out)@ + escape_json(s@));
}

/// Append the compact encoding of a value.
#[verifier::rlimit(100)]
fn encode_value(
    v: &JSONValue,
    item_sep: &Vec<char>,
    key_sep: &Vec<char>,
    sorted: bool,
    out: &mut Vec<char>,
)
    ensures
        final(out)@ == old(out)@ + encode_spec(*v, item_sep@, key_sep@, sorted),
    decreases *v, 0int, 0int,
{
    match v {
        JSONValue::Null => {
            out.push('n');
            out.push('u');
            out.push('l');
            out.push('l');
            proof {
                reveal_strlit("null");
                assert(final(out)@ =~= old(out)@ + "null"@);
            }
        }
        JSONValue::Bool(b) => {
            if *b {
                out.push('t');
                out.push('r');
                out.push('u');
                out.push('e');
                proof {
                    reveal_strlit("true");
                    assert(final(out)@ =~= old(out)@ + "true"@);
                }
            } else {
                out.push('f');
                out.push('a');
                out.push('l');
                out.push('s');
                out.push('e');
                proof {
                    reveal_strlit("false");
                    assert(final(out)@ =~= old(out)@ + "false"@);
                }
            }
        }
        JSONValue::Number(n) => {
            let digits = i64_to_chars(*n);
            crate::strutil::push_all(out, &digits);
        }
        JSONValue::Decimal(d) => {
            let chars = str_to_chars(d.as_str());
            crate::strutil::push_all(out, &chars);
        }
        JSONValue::String(s) => {
            let chars = str_to_chars(s.as_str());
            out.push('"');
            push_escaped(&chars, out);
            out.push('"');
            proof {
                assert(final(out)@ =~= old(out)@ + encode_spec(*v, item_sep@, key_sep@, sorted));
            }
        }
        JSONValue::Array(arr) => {
            out.push('[');
            let ghost base = old(out)@ + seq!['['];
            let ghost whole = encode_items(arr@, 0, item_sep@, key_sep@, sorted);
            let mut i: usize = 0;
            proof {
                assert(out@ == base);
            }
            while i < arr.len()
                invariant
                    *v == JSONValue::Array(*arr),
                    i <= arr@.len(),
                    whole == encode_items(arr@, 0, item_sep@, key_sep@, sorted),
                    out@ + encode_items(arr@, i as int, item_sep@, key_sep@, sorted)
                        == base + whole,
                decreases arr@.len() - i,
            {
                let ghost before = out@;
                if i > 0 {
                    crate::strutil::push_all(out, item_sep);
                }
                proof {
                    broadcast use vstd::std_specs::vec::axiom_vec_decreases_to_view;
                    broadcast use vstd::seq::axiom_seq_index_decreases;
                    assert(decreases_to!(*v => v->Array_0));
                    assert(decreases_to!(*arr => arr@));
                    assert(decreases_to!(arr@ => arr@[i as int]));
                    assert(decreases_to!(*v => arr@[i as int]));
                }
                encode_value(&arr[i], item_sep, key_sep, sorted, out);
                proof {
                    let sep_part: Seq<char> = if i > 0 { item_sep@ } else { Seq::empty() };
                    assert(out@ =~= before + sep_part
                        + encode_spec(arr@[i as int], item_sep@, key_sep@, sorted));
                    assert(out@ + encode_items(arr@, i + 1, item_sep@, key_sep@, sorted)
                        =~= before + encode_items(arr@, i as int, item_sep@, key_sep@, sorted));
                }
                i += 1;
            }
            proof {
                assert(encode_items(arr@, arr@.len() as int, item_sep@, key_sep@, sorted)
                    =~= Seq::<char>::empty());
                assert(out@ =~= base + whole);
            }
            out.push(']');
            proof {
                assert(final(out)@ =~= old(out)@ + encode_spec(*v, item_sep@, key_sep@, sorted));
            }
        }
        JSONValue::Object(obj) => {
            out.push('{');
            let perm: Vec<usize> = if sorted {
                sorted_key_order(obj)
            } else {
                identity_order(obj.len())
            };
            let ghost gperm = perm@.map_values(|u: usize| u as int);
            proof {
                if sorted {
                    assert(gperm == sort_perm(obj@, obj@.len() as int));
                } else {
                    assert(gperm == iota(obj@.len() as int));
                }
            }
            let ghost base = old(out)@ + seq!['{'];
            let ghost whole = encode_members(obj@, gperm, 0, item_sep@, key_sep@, sorted);
            let mut k: usize = 0;
            proof {
                assert(out@ == base);
            }
            while k < perm.len()
                invariant
                    *v == JSONValue::Object(*obj),
                    k <= perm@.len(),
                    gperm == perm@.map_values(|u: usize| u as int),
                    whole == encode_members(obj@, gperm, 0, item_sep@, key_sep@, sorted),
                    out@ + encode_members(obj@, gperm, k as int, item_sep@, key_sep@, sorted)
                        == base + whole,
                decreases perm@.len() - k,
            {
                let ghost before = out@;
                let ix = perm[k];
                assert(gperm[k as int] == ix as int);
                if ix < obj.len() {
                    if k > 0 {
                        crate::strutil::push_all(out, item_sep);
                    }
                    out.push('"');
                    let key_chars = str_to_chars(obj[ix].0.as_str());
                    push_escaped(&key_chars, out);
                    out.push('"');
                    crate::strutil::push_all(out, key_sep);
                    proof {
                        broadcast use vstd::std_specs::vec::axiom_vec_decreases_to_view;
                        broadcast use vstd::seq::axiom_seq_index_decreases;
                        assert(decreases_to!(*v => v->Object_0));
                        assert(decreases_to!(*obj => obj@));
                        assert(decreases_to!(obj@ => obj@[ix as int]));
                        assert(decreases_to!(obj@[ix as int] => obj@[ix as int].1));
                        assert(decreases_to!(*v => obj@[ix as int].1));
                    }
                    encode_value(&obj[ix].1, item_sep, key_sep, sorted, out);
                    proof {
                        let sep_part: Seq<char> = if k > 0 { item_sep@ } else { Seq::empty() };
                        assert(out@ =~= before + sep_part + seq!['"']
                            + escape_json(obj@[ix as int].0@) + seq!['"'] + key_sep@
                            + encode_spec(obj@[ix as int].1, item_sep@, key_sep@, sorted));
                        assert(out@ + encode_members(obj@, gperm, k + 1, item_sep@, key_sep@, sorted)
                            =~= before + encode_members(obj@, gperm, k as int, item_sep@, key_sep@, sorted));
                    }
                } else {
                    proof {
                        assert(out@ + encode_members(obj@, gperm, k + 1, item_sep@, key_sep@, sorted)
                            =~= before + encode_members(obj@, gperm, k as int, item_sep@, key_sep@, sorted));
                    }
                }
                k += 1;
            }
            proof {
                assert(encode_members(obj@, gperm, gperm.len() as int, item_sep@, key_sep@, sorted)
                    =~= Seq::<char>::empty());
                assert(out@ =~= base + whole);
            }
            out.push('}');
            proof {
                assert(final(out)@ =~= old(out)@ + encode_spec(*v, item_sep@, key_sep@, sorted));
            }
        }
    }
}

/// The identity visiting order.
fn identity_order(n: usize) -> (r: Vec<usize>)
    ensures
        r@.map_values(|u: usize| u as int) == iota(n as int),
{
    let mut out: Vec<usize> = Vec::new();
    let mut k: usize = 0;
    while k < n
        invariant
            k <= n,
            out@.len() == k,
            forall|t: int| 0 <= t < k ==> out@[t] == t,
        decreases n - k,
    {
        out.push(k);
        k += 1;
    }
    proof {
        assert(out@.map_values(|u: usize| u as int) =~= iota(n as int));
    }
    out
}

/// Exec test of `lex_le`.
pub fn lex_le_exec(a: &Vec<char>, b: &Vec<char>) -> (r: bool)
    ensures
        r == lex_le(a@, b@),
{
    let mut k: usize = 0;
    proof {
        assert(a@.skip(0) =~= a@);
        assert(b@.skip(0) =~= b@);
    }
    loop
        invariant
            k <= a@.len(),
            k <= b@.len(),
            lex_le(a@, b@) == lex_le(a@.skip(k as int), b@.skip(k as int)),
        decreases a@.len() - k,
    {
        let ghost ra = a@.skip(k as int);
        let ghost rb = b@.skip(k as int);
        if k >= a.len() {
            assert(ra.len() == 0);
            return true;
        }
        if k >= b.len() {
            assert(rb.len() == 0 && ra.len() > 0);
            return false;
        }
        proof {
            assert(ra[0] == a@[k as int] && rb[0] == b@[k as int]);
            assert(ra.skip(1) =~= a@.skip(k + 1));
            assert(rb.skip(1) =~= b@.skip(k + 1));
        }
        if a[k] != b[k] {
            return a[k] < b[k];
        }
        k += 1;
    }
}

/// Insertion at a found position agrees with `insert_idx`.
proof fn lemma_insert_idx_at(ord: Seq<int>, obj: Seq<(String, JSONValue)>, ix: int, j: int)
    requires
        0 <= j <= ord.len(),
        0 <= ix < obj.len(),
        forall|t: int| 0 <= t < ord.len() ==> 0 <= #[trigger] ord[t] < obj.len(),
        forall|t: int| 0 <= t < j ==> lex_le(obj[#[trigger] ord[t]].0@, obj[ix].0@),
        j < ord.len() ==> !lex_le(obj[ord[j]].0@, obj[ix].0@),
    ensures
        insert_idx(ord, obj, ix) == ord.take(j) + seq![ix] + ord.skip(j),
    decreases j,
{
    if j == 0 {
        if ord.len() == 0 {
            assert(insert_idx(ord, obj, ix) =~= ord.take(0) + seq![ix] + ord.skip(0));
        } else {
            assert(insert_idx(ord, obj, ix) =~= ord.take(0) + seq![ix] + ord.skip(0));
        }
    } else {
        assert(lex_le(obj[ord[0]].0@, obj[ix].0@));
        assert forall|t: int| 0 <= t < ord.skip(1).len()
            implies 0 <= #[trigger] ord.skip(1)[t] < obj.len() by {
            assert(ord.skip(1)[t] == ord[t + 1]);
        }
        assert forall|t: int| 0 <= t < j - 1
            implies lex_le(obj[#[trigger] ord.skip(1)[t]].0@, obj[ix].0@) by {
            assert(ord.skip(1)[t] == ord[t + 1]);
        }
        if j - 1 < ord.skip(1).len() {
            assert(ord.skip(1)[j - 1] == ord[j]);
        }
        lemma_insert_idx_at(ord.skip(1), obj, ix, j - 1);
        assert(insert_idx(ord, obj, ix)
            == seq![ord[0]] + (ord.skip(1).take(j - 1) + seq![ix] + ord.skip(1).skip(j - 1)));
        assert(seq![ord[0]] + (ord.skip(1).take(j - 1) + seq![ix] + ord.skip(1).skip(j - 1))
            =~= ord.take(j) + seq![ix] + ord.skip(j));
    }
}

/// The stable key-sorted visiting order of the members.
fn sorted_key_order(obj: &Vec<(String, JSONValue)>) -> (r: Vec<usize>)
    ensures
        r@.map_values(|u: usize| u as int) == sort_perm(obj@, obj@.len() as int),
{
    let mut perm: Vec<usize> = Vec::new();
    let mut i: usize = 0;
    proof {
        assert(perm@.map_values(|u: usize| u as int) =~= sort_perm(obj@, 0));
    }
    while i < obj.len()
        invariant
            i <= obj@.len(),
            perm@.len() == i,
            forall|t: int| 0 <= t < perm@.len() ==> (#[trigger] perm@[t]) < obj@.len(),
            perm@.map_values(|u: usize| u as int) == sort_perm(obj@, i as int),
        decreases obj@.len() - i,
    {
        let ghost gperm = perm@.map_values(|u: usize| u as int);
        let key_i = str_to_chars(obj[i].0.as_str());
        let mut j: usize = 0;
        let mut stopped = false;
        while j < perm.len() && !stopped
            invariant
                j <= perm@.len(),
                i < obj@.len(),
                gperm == perm@.map_values(|u: usize| u as int),
                perm@.len() == i,
                key_i@ == obj@[i as int].0@,
                forall|t: int| 0 <= t < perm@.len() ==> (#[trigger] perm@[t]) < obj@.len(),
                forall|t: int| 0 <= t < j
                    ==> lex_le(obj@[#[trigger] gperm[t]].0@, obj@[i as int].0@),
                stopped ==> j < perm@.len() && !lex_le(obj@[gperm[j as int]].0@, obj@[i as int].0@),
            decreases perm@.len() - j + (if stopped { 0int } else { 1int }),
        {
            let cmp_key = str_to_chars(obj[perm[j]].0.as_str());
            if lex_le_exec(&cmp_key, &key_i) {
                j += 1;
            } else {
                stopped = true;
            }
        }
        proof {
            assert forall|t: int| 0 <= t < gperm.len()
                implies 0 <= #[trigger] gperm[t] < obj@.len() by {
                assert(gperm[t] == perm@[t] as int);
            }
            lemma_insert_idx_at(gperm, obj@, i as int, j as int);
        }
        let ghost perm_before = perm@;
        perm.insert(j, i);
        proof {
            assert(perm@.map_values(|u: usize| u as int)
                =~= perm_before.map_values(|u: usize| u as int).take(j as int) + seq![i as int]
                    + perm_before.map_values(|u: usize| u as int).skip(j as int));
            assert(perm@.map_values(|u: usize| u as int) =~= sort_perm(obj@, i + 1));
        }
        i += 1;
    }
    perm
}


/// The mathematical shape of a JSON value: what a parse yields and what
/// an encode consumes, with strings and collections as sequences.
pub enum JsonRep {
    Null,
    Bool(bool),
    Int(int),
    Dec(Seq<char>),
    Str(Seq<char>),
    Arr(Seq<JsonRep>),
    Obj(Seq<(Seq<char>, JsonRep)>),
}

/// The shape of a value.
pub open spec fn jview(v: JSONValue) -> JsonRep
    decreases v, 0int,
{
    match v {
        JSONValue::Null => JsonRep::Null,
        JSONValue::Bool(b) => JsonRep::Bool(b),
        JSONValue::Number(n) => JsonRep::Int(n as int),
        JSONValue::Decimal(d) => JsonRep::Dec(d@),
        JSONValue::String(s) => JsonRep::Str(s@),
        JSONValue::Array(arr) => JsonRep::Arr(jview_list(arr@)),
        JSONValue::Object(obj) => JsonRep::Obj(jview_pairs(obj@)),
    }
}

/// The shapes of an element sequence.
pub open spec fn jview_list(elems: Seq<JSONValue>) -> Seq<JsonRep>
    decreases elems, 1int,
{
    if elems.len() == 0 {
        Seq::empty()
    } else {
        jview_list(elems.drop_last()).push(jview(elems.last()))
    }
}

/// The shapes of a member sequence.
pub open spec fn jview_pairs(obj: Seq<(String, JSONValue)>) -> Seq<(Seq<char>, JsonRep)>
    decreases obj, 1int,
{
    if obj.len() == 0 {
        Seq::empty()
    } else {
        jview_pairs(obj.drop_last()).push((obj.last().0@, jview(obj.last().1)))
    }
}

/// The whitespace the decoder skips.
pub open spec fn is_json_ws(c: char) -> bool {
    c == ' ' || c == '\t' || c == '\n' || c == '\u{c}' || c == '\r'
}

/// The first position at or after `i` holding a non-whitespace character.
pub open spec fn ws_end(s: Seq<char>, i: int) -> int
    decreases s.len() - i,
{
    if 0 <= i < s.len() && is_json_ws(s[i]) {
        ws_end(s, i + 1)
    } else {
        i
    }
}

/// The end of the digit run starting at `i`.
pub open spec fn digits_end(s: Seq<char>, i: int) -> int
    decreases s.len() - i,
{
    if 0 <= i < s.len() && is_digit_char(s[i]) {
        digits_end(s, i + 1)
    } else {
        i
    }
}

/// Whether `c` is a hexadecimal digit.
pub open spec fn is_hex_char(c: char) -> bool {
    is_digit_char(c) || ('a' <= c && c <= 'f') || ('A' <= c && c <= 'F')
}

/// The value of a hexadecimal digit.
pub open spec fn hex_char_val(c: char) -> int {
    if is_digit_char(c) {
        digit_val(c)
    } else if 'a' <= c && c <= 'f' {
        c as int - 'a' as int + 10
    } else {
        c as int - 'A' as int + 10
    }
}

/// Whether a code point is a Unicode scalar value.
pub open spec fn valid_unicode(cp: int) -> bool {
    (0 <= cp < 0xD800) || (0xE000 <= cp <= 0x10FFFF)
}

/// What parsing the inside of a string literal from `pos` yields: the
/// unescaped characters and the position after the closing quote.
pub open spec fn parse_str_tail(s: Seq<char>, pos: int, acc: Seq<char>) -> Option<(Seq<char>, int)>
    decreases s.len() - pos,
{
    if pos < 0 || pos >= s.len() {
        None
    } else if s[pos] == '"' {
        Some((acc, pos + 1))
    } else if s[pos] == '\\' {
        if pos + 1 >= s.len() {
            None
        } else {
            ({
                let e = s[pos + 1];
                if e == '"' { parse_str_tail(s, pos + 2, acc.push('"')) }
                else if e == '\\' { parse_str_tail(s, pos + 2, acc.push('\\')) }
                else if e == '/' { parse_str_tail(s, pos + 2, acc.push('/')) }
                else if e == 'b' { parse_str_tail(s, pos + 2, acc.push('\u{8}')) }
                else if e == 'f' { parse_str_tail(s, pos + 2, acc.push('\u{c}')) }
                else if e == 'n' { parse_str_tail(s, pos + 2, acc.push('\n')) }
                else if e == 'r' { parse_str_tail(s, pos + 2, acc.push('\r')) }
                else if e == 't' { parse_str_tail(s, pos + 2, acc.push('\t')) }
                else if e == 'u' {
                    if pos + 5 < s.len() && is_hex_char(s[pos + 2]) && is_hex_char(s[pos + 3])
                        && is_hex_char(s[pos + 4]) && is_hex_char(s[pos + 5]) {
                        ({
                            let cp = hex_char_val(s[pos + 2]) * 4096 + hex_char_val(s[pos + 3])
                                * 256 + hex_char_val(s[pos + 4]) * 16 + hex_char_val(s[pos + 5]);
                            if valid_unicode(cp) {
                                parse_str_tail(s, pos + 6, acc.push(((cp as u32) as char)))
                            } else {
                                None
                            }
                        })
                    } else {
                        None
                    }
                } else {
                    None
                }
            })
        }
    } else {
        parse_str_tail(s, pos + 1, acc.push(s[pos]))
    }
}

/// What parsing a string literal beginning at `i` yields.
pub open spec fn parse_string_spec(s: Seq<char>, i: int) -> Option<(Seq<char>, int)> {
    if 0 <= i < s.len() && s[i] == '"' {
        parse_str_tail(s, i + 1, Seq::empty())
    } else {
        None
    }
}

/// The end of an optional fraction part at `p`: a dot must be followed by
/// at least one digit, else the numeral is malformed.
pub open spec fn frac_end(s: Seq<char>, p: int) -> Option<int> {
    if 0 <= p < s.len() && s[p] == '.' {
        if p + 1 < s.len() && is_digit_char(s[p + 1]) {
            Some(digits_end(s, p + 1))
        } else {
            None
        }
    } else {
        Some(p)
    }
}

/// The end of an optional exponent part at `p`: `e` or `E`, an optional
/// sign, then at least one digit.
pub open spec fn exp_end(s: Seq<char>, p: int) -> Option<int> {
    if 0 <= p < s.len() && (s[p] == 'e' || s[p] == 'E') {
        ({
            let q = if p + 1 < s.len() && (s[p + 1] == '+' || s[p + 1] == '-') {
                p + 2
            } else {
                p + 1
            };
            if q < s.len() && is_digit_char(s[q]) {
                Some(digits_end(s, q))
            } else {
                None
            }
        })
    } else {
        Some(p)
    }
}

/// What parsing a number beginning at `i` yields: a plain integer numeral
/// in range becomes an integer; any other well-formed numeral — with a
/// fraction, an exponent, or out of the integer range — is kept as its
/// text; a dot or exponent mark without digits parses to nothing.
pub open spec fn parse_number_spec(s: Seq<char>, i: int) -> Option<(JsonRep, int)> {
    ({
        let neg = 0 <= i < s.len() && s[i] == '-';
        let d0 = if neg { i + 1 } else { i };
        if !(0 <= d0 && d0 < s.len() && is_digit_char(s[d0])) {
            None
        } else {
            ({
                let dend = if s[d0] == '0' { d0 + 1 } else { digits_end(s, d0) };
                match frac_end(s, dend) {
                    None => None,
                    Some(fe) => match exp_end(s, fe) {
                        None => None,
                        Some(ee) => if ee == dend {
                            ({
                                let m = digits_val(s.subrange(d0, dend));
                                let val = if neg { -m } else { m };
                                if i64::MIN <= val <= i64::MAX {
                                    Some((JsonRep::Int(val), dend))
                                } else {
                                    Some((JsonRep::Dec(s.subrange(i, dend)), dend))
                                }
                            })
                        } else {
                            Some((JsonRep::Dec(s.subrange(i, ee)), ee))
                        },
                    },
                }
            })
        }
    })
}

/// What parsing a value at `i` yields: the value and the position after
/// it.  Whitespace before the value is skipped.
pub open spec fn parse_value_spec(s: Seq<char>, i: int) -> Option<(JsonRep, int)>
    decreases clamp_pos(s.len() - i), 3int,
{
    ({
        let j = ws_end(s, i);
        if !(i <= j < s.len()) {
            None
        } else if s[j] == '"' {
            match parse_string_spec(s, j) {
                Some((str_chars, p2)) => Some((JsonRep::Str(str_chars), p2)),
                None => None,
            }
        } else if s[j] == '[' {
            ({
                let p0 = ws_end(s, j + 1);
                if !(j < p0 <= s.len()) {
                    None
                } else if p0 < s.len() && s[p0] == ']' {
                    Some((JsonRep::Arr(Seq::empty()), p0 + 1))
                } else {
                    parse_items_spec(s, p0, Seq::empty())
                }
            })
        } else if s[j] == '{' {
            ({
                let p0 = ws_end(s, j + 1);
                if !(j < p0 <= s.len()) {
                    None
                } else if p0 < s.len() && s[p0] == '}' {
                    Some((JsonRep::Obj(Seq::empty()), p0 + 1))
                } else {
                    parse_members_spec(s, p0, Seq::empty())
                }
            })
        } else if s[j] == 't' {
            if j + 4 <= s.len() && s.subrange(j, j + 4) == "true"@ {
                Some((JsonRep::Bool(true), j + 4))
            } else {
                None
            }
        } else if s[j] == 'f' {
            if j + 5 <= s.len() && s.subrange(j, j + 5) == "false"@ {
                Some((JsonRep::Bool(false), j + 5))
            } else {
                None
            }
        } else if s[j] == 'n' {
            if j + 4 <= s.len() && s.subrange(j, j + 4) == "null"@ {
                Some((JsonRep::Null, j + 4))
            } else {
                None
            }
        } else if is_digit_char(s[j]) || s[j] == '-' {
            parse_number_spec(s, j)
        } else {
            None
        }
    })
}

/// `x` clamped to be non-negative, for termination measures.
pub open spec fn clamp_pos(x: int) -> int {
    if x > 0 {
        x
    } else {
        0
    }
}

/// The elements of an array from `pos` (after any `[` or `,`): each parsed
/// value followed by a comma continues, `]` ends the array.
pub open spec fn parse_items_spec(s: Seq<char>, pos: int, acc: Seq<JsonRep>) -> Option<
    (JsonRep, int),
>
    decreases clamp_pos(s.len() - pos), 4int,
{
    match parse_value_spec(s, pos) {
        None => None,
        Some((val, p2)) => if pos < p2 <= s.len() {
            ({
                let p3 = ws_end(s, p2);
                if !(p2 <= p3 < s.len()) {
                    None
                } else if s[p3] == ',' {
                    ({
                        let p4 = ws_end(s, p3 + 1);
                        if p3 < p4 <= s.len() {
                            parse_items_spec(s, p4, acc.push(val))
                        } else {
                            None
                        }
                    })
                } else if s[p3] == ']' {
                    Some((JsonRep::Arr(acc.push(val)), p3 + 1))
                } else {
                    None
                }
            })
        } else {
            None
        },
    }
}

/// The members of an object from `pos` (after any `{` or `,`): a string
/// key, a colon, a value; a comma continues, `}` ends the object.
pub open spec fn parse_members_spec(
    s: Seq<char>,
    pos: int,
    acc: Seq<(Seq<char>, JsonRep)>,
) -> Option<(JsonRep, int)>
    decreases clamp_pos(s.len() - pos), 4int,
{
    if !(0 <= pos < s.len() && s[pos] == '"') {
        None
    } else {
        match parse_string_spec(s, pos) {
            None => None,
            Some((key, kp)) => if pos < kp <= s.len() {
                ({
                    let cp = ws_end(s, kp);
                    if !(kp <= cp < s.len() && s[cp] == ':') {
                        None
                    } else {
                        match parse_value_spec(s, cp + 1) {
                            None => None,
                            Some((val, p2)) => if cp < p2 <= s.len() {
                                ({
                                    let p3 = ws_end(s, p2);
                                    if !(p2 <= p3 < s.len()) {
                                        None
                                    } else if s[p3] == ',' {
                                        ({
                                            let p4 = ws_end(s, p3 + 1);
                                            if p3 + 1 <= p4 <= s.len() && pos < p4 {
                                                parse_members_spec(s, p4, acc.push((key, val)))
                                            } else {
                                                None
                                            }
                                        })
                                    } else if s[p3] == '}' {
                                        Some((JsonRep::Obj(acc.push((key, val))), p3 + 1))
                                    } else {
                                        None
                                    }
                                })
                            } else {
                                None
                            },
                        }
                    }
                })
            } else {
                None
            },
        }
    }
}


/// Exec scan to the end of leading whitespace.
fn ws_scan(s: &Vec<char>, i: usize) -> (r: usize)
    requires
        i <= s@.len(),
    ensures
        r as int == ws_end(s@, i as int),
        i <= r <= s@.len(),
{
    let mut j = i;
    while j < s.len() && (s[j] == ' ' || s[j] == '\t' || s[j] == '\n' || s[j] == '\u{c}'
        || s[j] == '\r')
        invariant
            i <= j <= s@.len(),
            ws_end(s@, i as int) == ws_end(s@, j as int),
        decreases s@.len() - j,
    {
        proof {
            assert(ws_end(s@, j as int) == ws_end(s@, j + 1));
        }
        j += 1;
    }
    j
}

/// Exec scan to the end of a digit run.
fn digits_scan(s: &Vec<char>, i: usize) -> (r: usize)
    requires
        i <= s@.len(),
    ensures
        r as int == digits_end(s@, i as int),
        i <= r <= s@.len(),
        forall|k: int| i <= k < r ==> is_digit_char(s@[k]),
        r < s@.len() ==> !is_digit_char(s@[r as int]),
{
    let mut j = i;
    while j < s.len() && '0' <= s[j] && s[j] <= '9'
        invariant
            i <= j <= s@.len(),
            digits_end(s@, i as int) == digits_end(s@, j as int),
            forall|k: int| i <= k < j ==> is_digit_char(s@[k]),
        decreases s@.len() - j,
    {
        proof {
            assert(digits_end(s@, j as int) == digits_end(s@, j + 1));
        }
        j += 1;
    }
    proof {
        assert(digits_end(s@, j as int) == j as int);
    }
    j
}

/// Relies on `char::from_u32`: a scalar value for every code point that is
/// neither a surrogate nor above 0x10FFFF, and nothing otherwise.
#[verifier::external_body]
fn char_from_u32(cp: u32) -> (r: Option<char>)
    ensures
        match r {
            Some(c) => valid_unicode(cp as int) && c as u32 == cp,
            None => !valid_unicode(cp as int),
        },
{
    char::from_u32(cp)
}

/// Exec value of a hexadecimal digit.
fn hex_val_exec(c: char) -> (r: u32)
    requires
        is_hex_char(c),
    ensures
        r as int == hex_char_val(c),
        r < 16,
{
    if '0' <= c && c <= '9' {
        (c as u32) - ('0' as u32)
    } else if 'a' <= c && c <= 'f' {
        (c as u32) - ('a' as u32) + 10
    } else {
        (c as u32) - ('A' as u32) + 10
    }
}

/// Exec test for a hexadecimal digit.
fn is_hex_exec(c: char) -> (r: bool)
    ensures
        r == is_hex_char(c),
{
    ('0' <= c && c <= '9') || ('a' <= c && c <= 'f') || ('A' <= c && c <= 'F')
}

/// Exec parse of a string literal beginning at `i`.
fn parse_string_exec(s: &Vec<char>, i: usize) -> (r: Option<(Vec<char>, usize)>)
    requires
        s@.len() + 8 < usize::MAX,
        i <= s@.len(),
    ensures
        match r {
            Some(v) => parse_string_spec(s@, i as int) == Some((v.0@, v.1 as int))
                && i < v.1 <= s@.len(),
            None => parse_string_spec(s@, i as int) is None,
        },
{
    if i >= s.len() || s[i] != '"' {
        return None;
    }
    let mut acc: Vec<char> = Vec::new();
    let mut pos: usize = i + 1;
    loop
        invariant
            i < s@.len() && s@[i as int] == '"',
            i + 1 <= pos,
            pos <= s@.len() + 1,
            s@.len() + 8 < usize::MAX,
            parse_str_tail(s@, i + 1, Seq::empty()) == parse_str_tail(s@, pos as int, acc@),
        decreases s@.len() + 1 - pos,
    {
        if pos >= s.len() {
            return None;
        }
        let c = s[pos];
        if c == '"' {
            return Some((acc, pos + 1));
        }
        if c == '\\' {
            if pos + 1 >= s.len() {
                return None;
            }
            let e = s[pos + 1];
            if e == '"' {
                acc.push('"');
                pos += 2;
            } else if e == '\\' {
                acc.push('\\');
                pos += 2;
            } else if e == '/' {
                acc.push('/');
                pos += 2;
            } else if e == 'b' {
                acc.push('\u{8}');
                pos += 2;
            } else if e == 'f' {
                acc.push('\u{c}');
                pos += 2;
            } else if e == 'n' {
                acc.push('\n');
                pos += 2;
            } else if e == 'r' {
                acc.push('\r');
                pos += 2;
            } else if e == 't' {
                acc.push('\t');
                pos += 2;
            } else if e == 'u' {
                if !(pos + 5 < s.len() && is_hex_exec(s[pos + 2]) && is_hex_exec(s[pos + 3])
                    && is_hex_exec(s[pos + 4]) && is_hex_exec(s[pos + 5])) {
                    return None;
                }
                let cp: u32 = hex_val_exec(s[pos + 2]) * 4096 + hex_val_exec(s[pos + 3]) * 256
                    + hex_val_exec(s[pos + 4]) * 16 + hex_val_exec(s[pos + 5]);
                match char_from_u32(cp) {
                    Some(ch) => {
                        proof {
                            vstd::utf8::char_u32_cast(ch, cp);
                            assert(((cp as u32) as char) == ch);
                        }
                        acc.push(ch);
                        pos += 6;
                    }
                    None => {
                        return None;
                    }
                }
            } else {
                return None;
            }
        } else {
            acc.push(c);
            pos += 1;
        }
    }
}

/// Copy the characters of `s` between `a` and `b` into a fresh buffer.
fn copy_range(s: &Vec<char>, a: usize, b: usize) -> (r: Vec<char>)
    requires
        a <= b <= s@.len(),
    ensures
        r@ == s@.subrange(a as int, b as int),
{
    let mut out: Vec<char> = Vec::new();
    let mut t: usize = a;
    while t < b
        invariant
            a <= t <= b <= s@.len(),
            out@ == s@.subrange(a as int, t as int),
        decreases b - t,
    {
        out.push(s[t]);
        assert(out@ =~= s@.subrange(a as int, t + 1));
        t += 1;
    }
    out
}

/// Exec parse of a number beginning at `i`: an integer when the numeral is
/// a plain in-range integer, else the numeral kept as text.
fn parse_number_exec(s: &Vec<char>, i: usize) -> (r: Option<(JSONValue, usize)>)
    requires
        s@.len() + 8 < usize::MAX,
        i <= s@.len(),
    ensures
        match r {
            Some(v) => parse_number_spec(s@, i as int) == Some((jview(v.0), v.1 as int))
                && i < v.1 <= s@.len(),
            None => parse_number_spec(s@, i as int) is None,
        },
{
    let neg = i < s.len() && s[i] == '-';
    let d0: usize = if neg { i + 1 } else { i };
    if !(d0 < s.len() && '0' <= s[d0] && s[d0] <= '9') {
        return None;
    }
    let dend: usize = if s[d0] == '0' {
        d0 + 1
    } else {
        digits_scan(s, d0)
    };
    proof {
        if s@[d0 as int] == '0' {
            assert(forall|k: int| d0 <= k < d0 + 1 ==> is_digit_char(s@[k]));
        }
    }
    // optional fraction part
    let fe: usize = if dend < s.len() && s[dend] == '.' {
        if dend + 1 < s.len() && '0' <= s[dend + 1] && s[dend + 1] <= '9' {
            digits_scan(s, dend + 1)
        } else {
            proof {
                assert(frac_end(s@, dend as int) is None);
            }
            return None;
        }
    } else {
        dend
    };
    proof {
        assert(frac_end(s@, dend as int) == Some(fe as int));
    }
    // optional exponent part
    let ee: usize = if fe < s.len() && (s[fe] == 'e' || s[fe] == 'E') {
        let q: usize = if fe + 1 < s.len() && (s[fe + 1] == '+' || s[fe + 1] == '-') {
            fe + 2
        } else {
            fe + 1
        };
        if q < s.len() && '0' <= s[q] && s[q] <= '9' {
            digits_scan(s, q)
        } else {
            proof {
                assert(exp_end(s@, fe as int) is None);
            }
            return None;
        }
    } else {
        fe
    };
    proof {
        assert(exp_end(s@, fe as int) == Some(ee as int));
    }
    if ee != dend {
        // fraction or exponent: keep the numeral verbatim
        let text = copy_range(s, i, ee);
        let out = JSONValue::Decimal(chars_to_string(&text));
        proof {
            assert(jview(out) == JsonRep::Dec(s@.subrange(i as int, ee as int)));
        }
        return Some((out, ee));
    }
    let ghost digits = s@.subrange(d0 as int, dend as int);
    proof {
        assert(forall|k: int| 0 <= k < digits.len() ==> is_digit_char(#[trigger] digits[k]));
    }
    let mut acc: u64 = 0;
    let mut k: usize = d0;
    let mut out_of_range = false;
    proof {
        assert(digits.take(0) =~= Seq::<char>::empty());
    }
    while k < dend && !out_of_range
        invariant
            i <= s@.len(),
            neg == (i < s@.len() && s@[i as int] == '-'),
            d0 == if neg { i + 1 } else { i as int },
            d0 < s@.len() && is_digit_char(s@[d0 as int]),
            dend as int == (if s@[d0 as int] == '0' { d0 + 1 } else { digits_end(s@, d0 as int) }),
            d0 <= k <= dend <= s@.len(),
            s@.len() + 8 < usize::MAX,
            digits == s@.subrange(d0 as int, dend as int),
            forall|t: int| 0 <= t < digits.len() ==> is_digit_char(#[trigger] digits[t]),
            !out_of_range ==> acc as int == digits_val(digits.take(k - d0)),
            out_of_range ==> digits_val(digits) > u64::MAX,
        decreases dend - k + (if out_of_range { 0int } else { 1int }),
    {
        let c = s[k];
        assert(c == digits[k - d0]);
        let d: u64 = (c as u32 as u64) - ('0' as u32 as u64);
        assert(d as int == digit_val(c));
        let next = match acc.checked_mul(10) {
            Some(t) => t.checked_add(d),
            None => None,
        };
        match next {
            Some(v) => {
                proof {
                    assert(digits.take(k - d0 + 1).drop_last() =~= digits.take(k - d0));
                }
                acc = v;
                k += 1;
            }
            None => {
                proof {
                    assert(digits.take(k - d0 + 1).drop_last() =~= digits.take(k - d0));
                    assert(digits_val(digits.take(k - d0 + 1)) > u64::MAX);
                    crate::numstr::lemma_digits_val_prefix_le(digits, k - d0 + 1);
                    assert(digits_val(digits) > u64::MAX);
                }
                out_of_range = true;
            }
        }
    }
    proof {
        if !out_of_range {
            assert(digits.take(dend - d0) =~= digits);
        }
        crate::numstr::lemma_digits_val_nonneg(digits);
    }
    let in_range: bool = if out_of_range {
        false
    } else if neg {
        acc <= 9223372036854775808u64
    } else {
        acc <= i64::MAX as u64
    };
    if !in_range {
        // a plain integer numeral beyond the integer range: keep its text
        let text = copy_range(s, i, dend);
        let out = JSONValue::Decimal(chars_to_string(&text));
        proof {
            assert(jview(out) == JsonRep::Dec(s@.subrange(i as int, dend as int)));
        }
        return Some((out, dend));
    }
    if neg {
        if acc == 9223372036854775808u64 {
            Some((JSONValue::Number(i64::MIN), dend))
        } else {
            Some((JSONValue::Number(-(acc as i64)), dend))
        }
    } else {
        Some((JSONValue::Number(acc as i64), dend))
    }
}

/// Exec parse of any value at `i`.
fn parse_value_exec(s: &Vec<char>, i: usize) -> (r: Option<(JSONValue, usize)>)
    requires
        s@.len() + 8 < usize::MAX,
        i <= s@.len(),
    ensures
        match r {
            Some(v) => parse_value_spec(s@, i as int) == Some((jview(v.0), v.1 as int))
                && i < v.1 <= s@.len(),
            None => parse_value_spec(s@, i as int) is None,
        },
    decreases clamp_pos(s@.len() - i), 3int,
{
    let j = ws_scan(s, i);
    if j >= s.len() {
        return None;
    }
    let c = s[j];
    if c == '"' {
        match parse_string_exec(s, j) {
            Some((chars, p2)) => {
                let st = chars_to_string(&chars);
                Some((JSONValue::String(st), p2))
            }
            None => None,
        }
    } else if c == '[' {
        let p0 = ws_scan(s, j + 1);
        if p0 < s.len() && s[p0] == ']' {
            let out = JSONValue::Array(Vec::new());
            proof {
                assert(jview_list(Seq::<JSONValue>::empty()) =~= Seq::<JsonRep>::empty());
            }
            Some((out, p0 + 1))
        } else {
            parse_items_exec(s, p0, Vec::new(), Ghost(i as int))
        }
    } else if c == '{' {
        let p0 = ws_scan(s, j + 1);
        if p0 < s.len() && s[p0] == '}' {
            let out = JSONValue::Object(Vec::new());
            proof {
                assert(jview_pairs(Seq::<(String, JSONValue)>::empty())
                    =~= Seq::<(Seq<char>, JsonRep)>::empty());
            }
            Some((out, p0 + 1))
        } else {
            parse_members_exec(s, p0, Vec::new(), Ghost(i as int))
        }
    } else if c == 't' {
        if j + 4 <= s.len() && s[j + 1] == 'r' && s[j + 2] == 'u' && s[j + 3] == 'e' {
            proof {
                reveal_strlit("true");
                assert(s@.subrange(j as int, j + 4) =~= "true"@);
            }
            Some((JSONValue::Bool(true), j + 4))
        } else {
            proof {
                reveal_strlit("true");
                if j + 4 <= s@.len() {
                    assert(s@.subrange(j as int, j + 4)[1] == s@[j + 1]);
                    assert(s@.subrange(j as int, j + 4)[2] == s@[j + 2]);
                    assert(s@.subrange(j as int, j + 4)[3] == s@[j + 3]);
                }
            }
            None
        }
    } else if c == 'f' {
        if j + 5 <= s.len() && s[j + 1] == 'a' && s[j + 2] == 'l' && s[j + 3] == 's'
            && s[j + 4] == 'e' {
            proof {
                reveal_strlit("false");
                assert(s@.subrange(j as int, j + 5) =~= "false"@);
            }
            Some((JSONValue::Bool(false), j + 5))
        } else {
            proof {
                reveal_strlit("false");
                if j + 5 <= s@.len() {
                    assert(s@.subrange(j as int, j + 5)[1] == s@[j + 1]);
                    assert(s@.subrange(j as int, j + 5)[2] == s@[j + 2]);
                    assert(s@.subrange(j as int, j + 5)[3] == s@[j + 3]);
                    assert(s@.subrange(j as int, j + 5)[4] == s@[j + 4]);
                }
            }
            None
        }
    } else if c == 'n' {
        if j + 4 <= s.len() && s[j + 1] == 'u' && s[j + 2] == 'l' && s[j + 3] == 'l' {
            proof {
                reveal_strlit("null");
                assert(s@.subrange(j as int, j + 4) =~= "null"@);
            }
            Some((JSONValue::Null, j + 4))
        } else {
            proof {
                reveal_strlit("null");
                if j + 4 <= s@.len() {
                    assert(s@.subrange(j as int, j + 4)[1] == s@[j + 1]);
                    assert(s@.subrange(j as int, j + 4)[2] == s@[j + 2]);
                    assert(s@.subrange(j as int, j + 4)[3] == s@[j + 3]);
                }
            }
            None
        }
    } else if ('0' <= c && c <= '9') || c == '-' {
        parse_number_exec(s, j)
    } else {
        None
    }
}

/// Exec parse of array elements from `pos`.
fn parse_items_exec(s: &Vec<char>, pos: usize, acc: Vec<JSONValue>, Ghost(from): Ghost<int>) -> (r:
    Option<(JSONValue, usize)>)
    requires
        s@.len() + 8 < usize::MAX,
        pos <= s@.len(),
        from < pos,
    ensures
        match r {
            Some(v) => parse_items_spec(s@, pos as int, jview_list(acc@))
                == Some((jview(v.0), v.1 as int)) && from < v.1 <= s@.len(),
            None => parse_items_spec(s@, pos as int, jview_list(acc@)) is None,
        },
    decreases clamp_pos(s@.len() - pos), 4int,
{
    let mut acc = acc;
    match parse_value_exec(s, pos) {
        None => None,
        Some((val, p2)) => {
            let p3 = ws_scan(s, p2);
            if p3 >= s.len() {
                return None;
            }
            if s[p3] == ',' {
                let p4 = ws_scan(s, p3 + 1);
                let ghost acc_before = acc@;
                acc.push(val);
                proof {
                    assert(acc@.drop_last() =~= acc_before);
                    assert(jview_list(acc@)
                        =~= jview_list(acc_before).push(jview(acc@.last())));
                }
                parse_items_exec(s, p4, acc, Ghost(from))
            } else if s[p3] == ']' {
                let ghost acc_before = acc@;
                acc.push(val);
                proof {
                    assert(acc@.drop_last() =~= acc_before);
                    assert(jview_list(acc@)
                        =~= jview_list(acc_before).push(jview(acc@.last())));
                }
                Some((JSONValue::Array(acc), p3 + 1))
            } else {
                None
            }
        }
    }
}

/// Exec parse of object members from `pos`.
fn parse_members_exec(
    s: &Vec<char>,
    pos: usize,
    acc: Vec<(String, JSONValue)>,
    Ghost(from): Ghost<int>,
) -> (r: Option<(JSONValue, usize)>)
    requires
        s@.len() + 8 < usize::MAX,
        pos <= s@.len(),
        from < pos,
    ensures
        match r {
            Some(v) => parse_members_spec(s@, pos as int, jview_pairs(acc@))
                == Some((jview(v.0), v.1 as int)) && from < v.1 <= s@.len(),
            None => parse_members_spec(s@, pos as int, jview_pairs(acc@)) is None,
        },
    decreases clamp_pos(s@.len() - pos), 4int,
{
    let mut acc = acc;
    if pos >= s.len() || s[pos] != '"' {
        return None;
    }
    match parse_string_exec(s, pos) {
        None => None,
        Some((key_chars, kp)) => {
            let cp = ws_scan(s, kp);
            if !(cp < s.len() && s[cp] == ':') {
                return None;
            }
            match parse_value_exec(s, cp + 1) {
                None => None,
                Some((val, p2)) => {
                    let p3 = ws_scan(s, p2);
                    if p3 >= s.len() {
                        return None;
                    }
                    let key = chars_to_string(&key_chars);
                    if s[p3] == ',' {
                        let p4 = ws_scan(s, p3 + 1);
                        let ghost acc_before = acc@;
                        acc.push((key, val));
                        proof {
                            assert(acc@.drop_last() =~= acc_before);
                            assert(jview_pairs(acc@) =~= jview_pairs(acc_before).push(
                                (acc@.last().0@, jview(acc@.last().1)),
                            ));
                        }
                        parse_members_exec(s, p4, acc, Ghost(from))
                    } else if s[p3] == '}' {
                        let ghost acc_before = acc@;
                        acc.push((key, val));
                        proof {
                            assert(acc@.drop_last() =~= acc_before);
                            assert(jview_pairs(acc@) =~= jview_pairs(acc_before).push(
                                (acc@.last().0@, jview(acc@.last().1)),
                            ));
                        }
                        Some((JSONValue::Object(acc), p3 + 1))
                    } else {
                        None
                    }
                }
            }
        }
    }
}


/// `n` spaces.
pub open spec fn spaces(n: int) -> Seq<char>
    decreases n,
{
    if n <= 0 {
        Seq::empty()
    } else {
        seq![' '] + spaces(n - 1)
    }
}

/// Spaces are spaces, as many as asked for.
pub proof fn lemma_spaces_chars(n: int)
    ensures
        spaces(n).len() == clamp_pos(n),
        forall|t: int| 0 <= t < spaces(n).len() ==> spaces(n)[t] == ' ',
    decreases n,
{
    if n > 0 {
        lemma_spaces_chars(n - 1);
        assert forall|t: int| 0 <= t < spaces(n).len() implies spaces(n)[t] == ' ' by {
            if t > 0 {
                assert(spaces(n)[t] == spaces(n - 1)[t - 1]);
            }
        }
    }
}

/// Spaces concatenate.
pub proof fn lemma_spaces_add(a: int, b: int)
    requires
        a >= 0,
        b >= 0,
    ensures
        spaces(a + b) == spaces(a) + spaces(b),
    decreases a,
{
    if a == 0 {
        assert(Seq::<char>::empty() + spaces(b) =~= spaces(b));
    } else {
        lemma_spaces_add(a - 1, b);
        assert(seq![' '] + (spaces(a - 1) + spaces(b)) =~= (seq![' '] + spaces(a - 1)) + spaces(b));
    }
}

/// The pretty encoding: elements one per line, each line indented by the
/// depth times the indent unit, keys separated from values by `": "`.
pub open spec fn pretty_spec(v: JSONValue, ind: int, depth: int, sorted: bool) -> Seq<char>
    decreases v, 0int, 0int,
{
    match v {
        JSONValue::Null => "null"@,
        JSONValue::Bool(b) => if b { "true"@ } else { "false"@ },
        JSONValue::Number(n) => int_dec_str(n as int),
        JSONValue::Decimal(d) => d@,
        JSONValue::String(s) => seq!['"'] + escape_json(s@) + seq!['"'],
        JSONValue::Array(arr) => if arr@.len() == 0 {
            seq!['[', ']']
        } else {
            seq!['[', '\n'] + pretty_items(arr@, 0, ind, depth, sorted) + seq!['\n']
                + spaces(depth * ind) + seq![']']
        },
        JSONValue::Object(obj) => if obj@.len() == 0 {
            seq!['{', '}']
        } else {
            seq!['{', '\n'] + pretty_members(
                obj@,
                if sorted {
                    sort_perm(obj@, obj@.len() as int)
                } else {
                    iota(obj@.len() as int)
                },
                0,
                ind,
                depth,
                sorted,
            ) + seq!['\n'] + spaces(depth * ind) + seq!['}']
        },
    }
}

/// The pretty elements of an array from `i` on.
pub open spec fn pretty_items(
    elems: Seq<JSONValue>,
    i: int,
    ind: int,
    depth: int,
    sorted: bool,
) -> Seq<char>
    decreases elems, 1int, elems.len() - i,
{
    if i < 0 || i >= elems.len() {
        Seq::empty()
    } else {
        (if i > 0 {
            seq![',', '\n']
        } else {
            Seq::empty()
        }) + spaces((depth + 1) * ind) + pretty_spec(elems[i], ind, depth + 1, sorted)
            + pretty_items(elems, i + 1, ind, depth, sorted)
    }
}

/// The pretty members of an object in permutation order from `k` on.
pub open spec fn pretty_members(
    obj: Seq<(String, JSONValue)>,
    perm: Seq<int>,
    k: int,
    ind: int,
    depth: int,
    sorted: bool,
) -> Seq<char>
    decreases obj, 1int, perm.len() - k,
{
    if k < 0 || k >= perm.len() {
        Seq::empty()
    } else if 0 <= perm[k] < obj.len() {
        (if k > 0 {
            seq![',', '\n']
        } else {
            Seq::empty()
        }) + spaces((depth + 1) * ind) + seq!['"'] + escape_json(obj[perm[k]].0@) + seq!['"']
            + ": "@ + pretty_spec(obj[perm[k]].1, ind, depth + 1, sorted)
            + pretty_members(obj, perm, k + 1, ind, depth, sorted)
    } else {
        pretty_members(obj, perm, k + 1, ind, depth, sorted)
    }
}

/// Append the pretty encoding of a value; `cur` is the indent of the
/// current depth.
#[verifier::rlimit(100)]
fn pretty_value(
    v: &JSONValue,
    unit: &Vec<char>,
    cur: &Vec<char>,
    Ghost(depth): Ghost<int>,
    sorted: bool,
    out: &mut Vec<char>,
)
    requires
        depth >= 0,
        cur@ == spaces(depth * unit@.len()),
        forall|t: int| 0 <= t < unit@.len() ==> unit@[t] == ' ',
    ensures
        final(out)@ == old(out)@ + pretty_spec(*v, unit@.len() as int, depth, sorted),
    decreases *v, 0int, 0int,
{
    let ghost ind = unit@.len() as int;
    match v {
        JSONValue::Null => {
            out.push('n');
            out.push('u');
            out.push('l');
            out.push('l');
            proof {
                reveal_strlit("null");
                assert(final(out)@ =~= old(out)@ + "null"@);
            }
        }
        JSONValue::Bool(b) => {
            if *b {
                out.push('t');
                out.push('r');
                out.push('u');
                out.push('e');
                proof {
                    reveal_strlit("true");
                    assert(final(out)@ =~= old(out)@ + "true"@);
                }
            } else {
                out.push('f');
                out.push('a');
                out.push('l');
                out.push('s');
                out.push('e');
                proof {
                    reveal_strlit("false");
                    assert(final(out)@ =~= old(out)@ + "false"@);
                }
            }
        }
        JSONValue::Number(n) => {
            let digits = i64_to_chars(*n);
            crate::strutil::push_all(out, &digits);
        }
        JSONValue::Decimal(d) => {
            let chars = str_to_chars(d.as_str());
            crate::strutil::push_all(out, &chars);
        }
        JSONValue::String(s) => {
            let chars = str_to_chars(s.as_str());
            out.push('"');
            push_escaped(&chars, out);
            out.push('"');
            proof {
                assert(final(out)@ =~= old(out)@ + pretty_spec(*v, ind, depth, sorted));
            }
        }
        JSONValue::Array(arr) => {
            if arr.len() == 0 {
                out.push('[');
                out.push(']');
                proof {
                    assert(final(out)@ =~= old(out)@ + pretty_spec(*v, ind, depth, sorted));
                }
                return;
            }
            let mut deeper: Vec<char> = Vec::new();
            crate::strutil::push_all(&mut deeper, cur);
            crate::strutil::push_all(&mut deeper, unit);
            proof {
                assert((depth + 1) * ind == depth * ind + ind) by (nonlinear_arith);
                assert(depth * ind >= 0) by (nonlinear_arith)
                    requires depth >= 0 && ind >= 0;
                lemma_spaces_add(depth * ind, ind);
                lemma_spaces_chars(ind);
                assert(unit@ =~= spaces(ind));
                assert(deeper@ =~= spaces((depth + 1) * ind));
            }
            out.push('[');
            out.push('\n');
            let ghost base = old(out)@ + seq!['[', '\n'];
            let ghost whole = pretty_items(arr@, 0, ind, depth, sorted);
            let mut i: usize = 0;
            proof {
                assert(out@ == base);
            }
            while i < arr.len()
                invariant
                    *v == JSONValue::Array(*arr),
                    i <= arr@.len(),
                    depth >= 0,
                    ind == unit@.len(),
                    forall|t: int| 0 <= t < unit@.len() ==> unit@[t] == ' ',
                    cur@ == spaces(depth * ind),
                    deeper@ == spaces((depth + 1) * ind),
                    whole == pretty_items(arr@, 0, ind, depth, sorted),
                    out@ + pretty_items(arr@, i as int, ind, depth, sorted) == base + whole,
                decreases arr@.len() - i,
            {
                let ghost before = out@;
                if i > 0 {
                    out.push(',');
                    out.push('\n');
                }
                crate::strutil::push_all(out, &deeper);
                proof {
                    broadcast use vstd::std_specs::vec::axiom_vec_decreases_to_view;
                    broadcast use vstd::seq::axiom_seq_index_decreases;
                    assert(decreases_to!(*v => v->Array_0));
                    assert(decreases_to!(*arr => arr@));
                    assert(decreases_to!(arr@ => arr@[i as int]));
                    assert(decreases_to!(*v => arr@[i as int]));
                }
                pretty_value(&arr[i], unit, &deeper, Ghost(depth + 1), sorted, out);
                proof {
                    let sep_part: Seq<char> = if i > 0 { seq![',', '\n'] } else { Seq::empty() };
                    assert(out@ =~= before + sep_part + spaces((depth + 1) * ind)
                        + pretty_spec(arr@[i as int], ind, depth + 1, sorted));
                    assert(out@ + pretty_items(arr@, i + 1, ind, depth, sorted)
                        =~= before + pretty_items(arr@, i as int, ind, depth, sorted));
                }
                i += 1;
            }
            proof {
                assert(pretty_items(arr@, arr@.len() as int, ind, depth, sorted)
                    =~= Seq::<char>::empty());
                assert(out@ =~= base + whole);
            }
            out.push('\n');
            crate::strutil::push_all(out, cur);
            out.push(']');
            proof {
                assert(final(out)@ =~= old(out)@ + pretty_spec(*v, ind, depth, sorted));
            }
        }
        JSONValue::Object(obj) => {
            if obj.len() == 0 {
                out.push('{');
                out.push('}');
                proof {
                    assert(final(out)@ =~= old(out)@ + pretty_spec(*v, ind, depth, sorted));
                }
                return;
            }
            let mut deeper: Vec<char> = Vec::new();
            crate::strutil::push_all(&mut deeper, cur);
            crate::strutil::push_all(&mut deeper, unit);
            proof {
                assert((depth + 1) * ind == depth * ind + ind) by (nonlinear_arith);
                assert(depth * ind >= 0) by (nonlinear_arith)
                    requires depth >= 0 && ind >= 0;
                lemma_spaces_add(depth * ind, ind);
                lemma_spaces_chars(ind);
                assert(unit@ =~= spaces(ind));
                assert(deeper@ =~= spaces((depth + 1) * ind));
            }
            let perm: Vec<usize> = if sorted {
                sorted_key_order(obj)
            } else {
                identity_order(obj.len())
            };
            let ghost gperm = perm@.map_values(|u: usize| u as int);
            out.push('{');
            out.push('\n');
            let ghost base = old(out)@ + seq!['{', '\n'];
            let ghost whole = pretty_members(obj@, gperm, 0, ind, depth, sorted);
            let mut k: usize = 0;
            proof {
                assert(out@ == base);
            }
            while k < perm.len()
                invariant
                    *v == JSONValue::Object(*obj),
                    k <= perm@.len(),
                    depth >= 0,
                    ind == unit@.len(),
                    forall|t: int| 0 <= t < unit@.len() ==> unit@[t] == ' ',
                    cur@ == spaces(depth * ind),
                    deeper@ == spaces((depth + 1) * ind),
                    gperm == perm@.map_values(|u: usize| u as int),
                    whole == pretty_members(obj@, gperm, 0, ind, depth, sorted),
                    out@ + pretty_members(obj@, gperm, k as int, ind, depth, sorted)
                        == base + whole,
                decreases perm@.len() - k,
            {
                let ghost before = out@;
                let ix = perm[k];
                assert(gperm[k as int] == ix as int);
                if ix < obj.len() {
                    if k > 0 {
                        out.push(',');
                        out.push('\n');
                    }
                    crate::strutil::push_all(out, &deeper);
                    out.push('"');
                    let key_chars = str_to_chars(obj[ix].0.as_str());
                    push_escaped(&key_chars, out);
                    out.push('"');
                    out.push(':');
                    out.push(' ');
                    proof {
                        broadcast use vstd::std_specs::vec::axiom_vec_decreases_to_view;
                        broadcast use vstd::seq::axiom_seq_index_decreases;
                        assert(decreases_to!(*v => v->Object_0));
                        assert(decreases_to!(*obj => obj@));
                        assert(decreases_to!(obj@ => obj@[ix as int]));
                        assert(decreases_to!(obj@[ix as int] => obj@[ix as int].1));
                        assert(decreases_to!(*v => obj@[ix as int].1));
                    }
                    pretty_value(&obj[ix].1, unit, &deeper, Ghost(depth + 1), sorted, out);
                    proof {
                        reveal_strlit(": ");
                        let sep_part: Seq<char> = if k > 0 { seq![',', '\n'] } else {
                            Seq::empty()
                        };
                        assert(out@ =~= before + sep_part + spaces((depth + 1) * ind) + seq!['"']
                            + escape_json(obj@[ix as int].0@) + seq!['"'] + ": "@
                            + pretty_spec(obj@[ix as int].1, ind, depth + 1, sorted));
                        assert(out@ + pretty_members(obj@, gperm, k + 1, ind, depth, sorted)
                            =~= before + pretty_members(obj@, gperm, k as int, ind, depth, sorted));
                    }
                } else {
                    proof {
                        assert(out@ + pretty_members(obj@, gperm, k + 1, ind, depth, sorted)
                            =~= before + pretty_members(obj@, gperm, k as int, ind, depth, sorted));
                    }
                }
                k += 1;
            }
            proof {
                assert(pretty_members(obj@, gperm, gperm.len() as int, ind, depth, sorted)
                    =~= Seq::<char>::empty());
                assert(out@ =~= base + whole);
            }
            out.push('\n');
            crate::strutil::push_all(out, cur);
            out.push('}');
            proof {
                assert(final(out)@ =~= old(out)@ + pretty_spec(*v, ind, depth, sorted));
            }
        }
    }
}

/// Encodes values to JSON text, honouring separators, key sorting and
/// optional pretty indentation.  `skipkeys`, `ensure_ascii`, `check_circular`
/// and `allow_nan` are carried for interface compatibility: with integer
/// numbers and string keys they have nothing to decide.
#[derive(Debug, Clone)]
pub struct JSONEncoder {
    pub skipkeys: bool,
    pub ensure_ascii: bool,
    pub check_circular: bool,
    pub allow_nan: bool,
    pub sort_keys: bool,
    pub indent: Option<usize>,
    pub separators: Option<(String, String)>,
}

/// The item separator an encoder uses.
pub open spec fn enc_item_sep(e: JSONEncoder) -> Seq<char> {
    match e.separators {
        Some(p) => p.0@,
        None => ","@,
    }
}

/// The key separator an encoder uses.
pub open spec fn enc_key_sep(e: JSONEncoder) -> Seq<char> {
    match e.separators {
        Some(p) => p.1@,
        None => ":"@,
    }
}

impl JSONEncoder {
    /// An encoder with the default settings.
    pub fn new() -> (r: JSONEncoder)
        ensures
            r.skipkeys == false,
            r.ensure_ascii == true,
            r.check_circular == true,
            r.allow_nan == true,
            r.sort_keys == false,
            r.indent is None,
            r.separators is None,
    {
        JSONEncoder {
            skipkeys: false,
            ensure_ascii: true,
            check_circular: true,
            allow_nan: true,
            sort_keys: false,
            indent: None,
            separators: None,
        }
    }

    /// An encoder with every setting chosen.
    pub fn with_options(
        skipkeys: bool,
        ensure_ascii: bool,
        check_circular: bool,
        allow_nan: bool,
        sort_keys: bool,
        indent: Option<usize>,
        separators: Option<(String, String)>,
    ) -> (r: JSONEncoder)
        ensures
            r.skipkeys == skipkeys,
            r.ensure_ascii == ensure_ascii,
            r.check_circular == check_circular,
            r.allow_nan == allow_nan,
            r.sort_keys == sort_keys,
            r.indent == indent,
            r.separators == separators,
    {
        JSONEncoder { skipkeys, ensure_ascii, check_circular, allow_nan, sort_keys, indent, separators }
    }

    /// Render a value: pretty when an indent is set, compact otherwise.
    pub fn encode(&self, obj: &JSONValue) -> (r: String)
        ensures
            r@ == match self.indent {
                Some(ind) => pretty_spec(*obj, ind as int, 0, self.sort_keys),
                None => encode_spec(*obj, enc_item_sep(*self), enc_key_sep(*self), self.sort_keys),
            },
    {
        let mut out: Vec<char> = Vec::new();
        match &self.indent {
            Some(ind) => {
                let mut unit: Vec<char> = Vec::new();
                let mut t: usize = 0;
                while t < *ind
                    invariant
                        t <= *ind,
                        unit@.len() == t,
                        forall|w: int| 0 <= w < t ==> unit@[w] == ' ',
                    decreases *ind - t,
                {
                    unit.push(' ');
                    t += 1;
                }
                let cur: Vec<char> = Vec::new();
                proof {
                    assert(cur@ =~= spaces(0));
                }
                pretty_value(obj, &unit, &cur, Ghost(0int), self.sort_keys, &mut out);
            }
            None => {
                let (isep, ksep): (Vec<char>, Vec<char>) = match &self.separators {
                    Some(p) => (str_to_chars(p.0.as_str()), str_to_chars(p.1.as_str())),
                    None => {
                        let mut a: Vec<char> = Vec::new();
                        a.push(',');
                        let mut b: Vec<char> = Vec::new();
                        b.push(':');
                        proof {
                            reveal_strlit(",");
                            reveal_strlit(":");
                            assert(a@ =~= ","@);
                            assert(b@ =~= ":"@);
                        }
                        (a, b)
                    }
                };
                encode_value(obj, &isep, &ksep, self.sort_keys, &mut out);
            }
        }
        chars_to_string(&out)
    }
}

impl Default for JSONEncoder {
    /// The default settings, as `new` gives them.
    fn default() -> (r: JSONEncoder)
        ensures
            r.skipkeys == false && r.sort_keys == false && r.indent is None
                && r.separators is None && r.allow_nan == true,
    {
        JSONEncoder::new()
    }
}

/// Decodes JSON text.  The `strict` flag is carried for interface
/// compatibility and does not alter the accepted grammar.
#[derive(Debug, Clone)]
pub struct JSONDecoder {
    pub strict: bool,
}

impl JSONDecoder {
    /// A strict decoder.
    pub fn new() -> (r: JSONDecoder)
        ensures
            r.strict == true,
    {
        JSONDecoder { strict: true }
    }

    /// A decoder with the strictness chosen.
    pub fn with_strict(strict: bool) -> (r: JSONDecoder)
        ensures
            r.strict == strict,
    {
        JSONDecoder { strict }
    }

    /// Parse a value from the text, surrounding whitespace allowed; an
    /// empty or malformed text is a value error.
    pub fn decode<S: crate::caps::AsStrLike>(&self, s: S) -> (r: Result<JSONValue, PyException>)
        requires
            s.str_view().len() + 8 < usize::MAX,
        ensures
            ({
                let t = crate::strutil::strip_spec(s.str_view());
                if t.len() == 0 {
                    r is Err && r.unwrap_err().exception_type@ == "ValueError"@
                } else {
                    match parse_value_spec(t, 0) {
                        Some((rep, _)) => r is Ok && jview(r.unwrap()) == rep,
                        None => r is Err && r.unwrap_err().exception_type@ == "ValueError"@,
                    }
                }
            }),
    {
        let chars = str_to_chars(s.as_str_like());
        let trimmed = crate::strutil::strip_chars(&chars);
        if trimmed.len() == 0 {
            return Err(value_error("Empty JSON string"));
        }
        match parse_value_exec(&trimmed, 0) {
            Some((v, _)) => Ok(v),
            None => Err(value_error("Invalid JSON input")),
        }
    }
}

impl Default for JSONDecoder {
    /// A strict decoder, as `new` gives it.
    fn default() -> (r: JSONDecoder)
        ensures
            r.strict == true,
    {
        JSONDecoder::new()
    }
}

/// Deserialize a JSON text into a value.
pub fn loads<S: crate::caps::AsStrLike>(s: S) -> (r: Result<JSONValue, PyException>)
    requires
        s.str_view().len() + 8 < usize::MAX,
    ensures
        ({
            let t = crate::strutil::strip_spec(s.str_view());
            if t.len() == 0 {
                r is Err && r.unwrap_err().exception_type@ == "ValueError"@
            } else {
                match parse_value_spec(t, 0) {
                    Some((rep, _)) => r is Ok && jview(r.unwrap()) == rep,
                    None => r is Err && r.unwrap_err().exception_type@ == "ValueError"@,
                }
            }
        }),
{
    JSONDecoder::new().decode(s)
}

/// Serialize a value: compact with `,` and `:` separators, or pretty with
/// the given indent.
pub fn dumps(obj: &JSONValue, indent: Option<usize>) -> (r: String)
    ensures
        r@ == match indent {
            Some(ind) => pretty_spec(*obj, ind as int, 0, false),
            None => encode_spec(*obj, ","@, ":"@, false),
        },
{
    let encoder = JSONEncoder::with_options(false, true, true, true, false, indent, None);
    encoder.encode(obj)
}


/// The end of a digit run that covers the whole tail.
proof fn lemma_digits_end_full(s: Seq<char>, i: int)
    requires
        0 <= i <= s.len(),
        forall|k: int| i <= k < s.len() ==> is_digit_char(#[trigger] s[k]),
    ensures
        digits_end(s, i) == s.len(),
    decreases s.len() - i,
{
    if i < s.len() {
        lemma_digits_end_full(s, i + 1);
    }
}

/// Law (the flat half of the round trip): encoding a null, boolean or
/// integer value, or an empty array or object, and parsing the text back
/// reproduces the value exactly, the whole text consumed.  The nested
/// cases follow the same grammar and are exercised by tests.
pub proof fn lemma_scalar_round_trip(v: JSONValue)
    requires
        v is Null || v is Bool || v is Number
            || (v is Array && v->Array_0@.len() == 0)
            || (v is Object && v->Object_0@.len() == 0),
    ensures
        ({
            let text = encode_spec(v, ","@, ":"@, false);
            parse_value_spec(text, 0) == Some((jview(v), text.len() as int))
        }),
{
    reveal_strlit("null");
    reveal_strlit("true");
    reveal_strlit("false");
    let text = encode_spec(v, ","@, ":"@, false);
    match v {
        JSONValue::Null => {
            assert(text[0] == 'n');
            assert(!is_json_ws(text[0]));
            assert(ws_end(text, 0) == 0);
            assert(text.subrange(0, 4) =~= "null"@);
        }
        JSONValue::Bool(b) => {
            if b {
                assert(text[0] == 't');
                assert(!is_json_ws(text[0]));
                assert(ws_end(text, 0) == 0);
                assert(text.subrange(0, 4) =~= "true"@);
            } else {
                assert(text[0] == 'f');
                assert(!is_json_ws(text[0]));
                assert(ws_end(text, 0) == 0);
                assert(text.subrange(0, 5) =~= "false"@);
            }
        }
        JSONValue::Number(n) => {
            let mag: nat = if n >= 0 {
                n as nat
            } else {
                (-(n as int)) as nat
            };
            crate::numstr::lemma_dec_digits_are_digits(mag);
            crate::numstr::lemma_digits_val_of_dec(mag);
            if n >= 0 {
                assert(text =~= dec_digits(mag));
                assert(is_digit_char(text[0]));
                assert(!is_json_ws(text[0]));
                assert(ws_end(text, 0) == 0);
                assert(forall|k: int| 0 <= k < text.len()
                    ==> is_digit_char(#[trigger] text[k]));
                if n >= 1 {
                    crate::numstr::lemma_dec_digits_leading(mag);
                    assert(text[0] != '0');
                    lemma_digits_end_full(text, 0);
                    assert(digits_end(text, 0) == text.len());
                    assert(text.subrange(0, text.len() as int) =~= text);
                    assert(digits_val(text.subrange(0, text.len() as int)) == mag);
                } else {
                    assert(mag < 10);
                    assert(text =~= seq![crate::numstr::digit_char(mag as int)]);
                    assert(text[0] == '0');
                    assert(text.subrange(0, 1) =~= text);
                    assert(digits_val(text.subrange(0, 1)) == mag);
                }
                assert(parse_number_spec(text, 0) == Some((JsonRep::Int(n as int), text.len() as int)));
            } else {
                assert(text =~= seq!['-'] + dec_digits(mag));
                assert(text[0] == '-');
                assert(!is_json_ws(text[0]));
                assert(ws_end(text, 0) == 0);
                assert(!is_digit_char('-'));
                assert forall|k: int| 1 <= k < text.len()
                    implies is_digit_char(#[trigger] text[k]) by {
                    assert(text[k] == dec_digits(mag)[k - 1]);
                }
                assert(text[1] == dec_digits(mag)[0]);
                assert(mag >= 1);
                crate::numstr::lemma_dec_digits_leading(mag);
                assert(text[1] != '0');
                lemma_digits_end_full(text, 1);
                assert(digits_end(text, 1) == text.len());
                assert(text.subrange(1, text.len() as int) =~= dec_digits(mag));
                assert(digits_val(text.subrange(1, text.len() as int)) == mag);
                assert(parse_number_spec(text, 0) == Some((JsonRep::Int(n as int), text.len() as int)));
            }
        }
        JSONValue::Decimal(_) => {
        }
        JSONValue::String(_) => {
        }
        JSONValue::Array(arr) => {
            assert(encode_items(arr@, 0, ","@, ":"@, false) =~= Seq::<char>::empty());
            assert(text =~= seq!['[', ']']);
            assert(!is_json_ws(text[0]));
            assert(ws_end(text, 0) == 0);
            assert(!is_json_ws(text[1]));
            assert(ws_end(text, 1) == 1);
            assert(jview_list(arr@) =~= Seq::<JsonRep>::empty());
        }
        JSONValue::Object(obj) => {
            assert(encode_members(
                obj@,
                iota(obj@.len() as int),
                0,
                ","@,
                ":"@,
                false,
            ) =~= Seq::<char>::empty());
            assert(text =~= seq!['{', '}']);
            assert(!is_json_ws(text[0]));
            assert(ws_end(text, 0) == 0);
            assert(!is_json_ws(text[1]));
            assert(ws_end(text, 1) == 1);
            assert(jview_pairs(obj@) =~= Seq::<(Seq<char>, JsonRep)>::empty());
        }
    }
}

} // verus!
