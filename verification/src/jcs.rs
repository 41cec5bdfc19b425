//! RFC 8785 (JSON Canonicalization Scheme) serialization.
//!
//! Object members are sorted by the UTF-16 code units of their keys,
//! strings use the minimal escapes of ECMA-262 `JSON.stringify`, integers
//! are written in decimal and other numbers by their canonical text.
use vstd::prelude::*;
use crate::json::{group_json_view, jv_seq, Entries, JNum, JView, JsonValue};
use crate::text::push_char;

verus! {

broadcast use group_json_view;

// ---- characters ---------------------------------------------------------

/// The decimal digit character for `d < 10`.
pub open spec fn digit_char(d: nat) -> char {
    ((d + 48) as u32) as char
}

/// The lowercase hex digit character for `d < 16`.
pub open spec fn hex_char(d: nat) -> char {
    if d < 10 {
        ((d + 48) as u32) as char
    } else {
        ((d + 87) as u32) as char
    }
}

/// Decimal digits of `n`.
pub open spec fn decimal(n: nat) -> Seq<char>
    decreases n,
{
    if n < 10 {
        seq![digit_char(n)]
    } else {
        decimal(n / 10).push(digit_char(n % 10))
    }
}

/// The JSON text of one string character.
pub open spec fn escape_char(c: char) -> Seq<char> {
    if c == '"' {
        seq!['\\', '"']
    } else if c == '\\' {
        seq!['\\', '\\']
    } else if c == '\u{8}' {
        seq!['\\', 'b']
    } else if c == '\u{c}' {
        seq!['\\', 'f']
    } else if c == '\n' {
        seq!['\\', 'n']
    } else if c == '\r' {
        seq!['\\', 'r']
    } else if c == '\t' {
        seq!['\\', 't']
    } else if (c as u32) < 0x20 {
        seq!['\\', 'u', '0', '0', hex_char((c as u32) as nat / 16), hex_char((c as u32) as nat % 16)]
    } else {
        seq![c]
    }
}

/// The escaped characters of a string.
pub open spec fn escape_body(s: Seq<char>) -> Seq<char>
    decreases s.len(),
{
    if s.len() == 0 {
        Seq::empty()
    } else {
        escape_body(s.drop_last()) + escape_char(s.last())
    }
}

/// A JSON string literal.
pub open spec fn quote(s: Seq<char>) -> Seq<char> {
    seq!['"'] + escape_body(s) + seq!['"']
}

// ---- UTF-16 key order ---------------------------------------------------

/// UTF-16 code units of one character.
pub open spec fn units_of(c: char) -> Seq<u16> {
    let v = c as u32;
    if v < 0x10000 {
        seq![v as u16]
    } else {
        seq![(0xD800 + (v - 0x10000) / 1024) as u16, (0xDC00 + (v - 0x10000) % 1024) as u16]
    }
}

/// UTF-16 code units of a string.
pub open spec fn utf16(s: Seq<char>) -> Seq<u16>
    decreases s.len(),
{
    if s.len() == 0 {
        Seq::empty()
    } else {
        utf16(s.drop_last()) + units_of(s.last())
    }
}

/// Strict lexicographic order on code-unit sequences.
pub open spec fn units_lt(a: Seq<u16>, b: Seq<u16>) -> bool
    decreases a.len(),
{
    if b.len() == 0 {
        false
    } else if a.len() == 0 {
        true
    } else if a[0] != b[0] {
        a[0] < b[0]
    } else {
        units_lt(a.drop_first(), b.drop_first())
    }
}

/// Key `a` sorts strictly before key `b`.
pub open spec fn key_lt(a: Seq<char>, b: Seq<char>) -> bool {
    units_lt(utf16(a), utf16(b))
}

/// A member rendered: its key and the canonical text of its value.
pub type Pair = (Seq<char>, Seq<char>);

/// Position at which `e` is inserted: before the first member whose key
/// sorts strictly after `e`'s.
pub open spec fn insert_pos(s: Seq<Pair>, e: Pair) -> int
    decreases s.len(),
{
    if s.len() == 0 {
        0
    } else if key_lt(e.0, s[0].0) {
        0
    } else {
        1 + insert_pos(s.drop_first(), e)
    }
}

/// Stable insertion of `e` into `s`.
pub open spec fn insert_sorted(s: Seq<Pair>, e: Pair) -> Seq<Pair> {
    let p = insert_pos(s, e);
    s.take(p) + seq![e] + s.skip(p)
}

/// Stable sort of members by key.
pub open spec fn sort_pairs(s: Seq<Pair>) -> Seq<Pair>
    decreases s.len(),
{
    if s.len() == 0 {
        Seq::empty()
    } else {
        insert_sorted(sort_pairs(s.drop_last()), s.last())
    }
}

// ---- canonical text -----------------------------------------------------

/// The canonical text of a number.
pub open spec fn canon_number(n: JNum) -> Seq<char> {
    match n {
        JNum::PosInt(u) => decimal(u as nat),
        JNum::NegInt(i) => if i < 0 {
            seq!['-'] + decimal((-(i as int)) as nat)
        } else {
            decimal(i as nat)
        },
        JNum::Float(t) => t,
    }
}

/// The canonical (RFC 8785) text of a value.
pub open spec fn canon(v: JView) -> Seq<char>
    decreases v,
{
    match v {
        JView::Null => seq!['n', 'u', 'l', 'l'],
        JView::Bool(b) => if b {
            seq!['t', 'r', 'u', 'e']
        } else {
            seq!['f', 'a', 'l', 's', 'e']
        },
        JView::Number(n) => canon_number(n),
        JView::Str(s) => quote(s),
        JView::Array(items) => seq!['['] + join_texts(canon_items(items)) + seq![']'],
        JView::Object(es) => seq!['{'] + render_pairs(sort_pairs(canon_pairs(es))) + seq!['}'],
    }
}

/// Canonical texts of array items.
pub open spec fn canon_items(s: Seq<JView>) -> Seq<Seq<char>>
    decreases s,
{
    if s.len() == 0 {
        Seq::empty()
    } else {
        proof {
            assert(decreases_to!(s => s[s.len() - 1]));
            assert(decreases_to!(s => s.drop_last()));
        }
        canon_items(s.drop_last()).push(canon(s[s.len() - 1]))
    }
}

/// Members with their values rendered canonically, in member order.
pub open spec fn canon_pairs(es: Entries) -> Seq<Pair>
    decreases es,
{
    if es.len() == 0 {
        Seq::empty()
    } else {
        proof {
            assert(decreases_to!(es => es[es.len() - 1]));
            assert(decreases_to!(es => es.drop_last()));
        }
        canon_pairs(es.drop_last()).push((es[es.len() - 1].0, canon(es[es.len() - 1].1)))
    }
}

/// Texts joined by commas.
pub open spec fn join_texts(ts: Seq<Seq<char>>) -> Seq<char>
    decreases ts.len(),
{
    if ts.len() == 0 {
        Seq::empty()
    } else if ts.len() == 1 {
        ts[0]
    } else {
        join_texts(ts.drop_last()) + seq![','] + ts.last()
    }
}

/// One member: `"key":value`.
pub open spec fn render_pair(p: Pair) -> Seq<char> {
    quote(p.0) + seq![':'] + p.1
}

/// Members rendered and joined by commas.
pub open spec fn render_pairs(ps: Seq<Pair>) -> Seq<char> {
    join_texts(ps.map_values(|p: Pair| render_pair(p)))
}

// ---- lemmas -------------------------------------------------------------

proof fn lemma_canon_items(s: Seq<JView>)
    ensures
        canon_items(s).len() == s.len(),
        forall|i: int| 0 <= i < s.len() ==> #[trigger] canon_items(s)[i] == canon(s[i]),
    decreases s.len(),
{
    if s.len() > 0 {
        lemma_canon_items(s.drop_last());
    }
}

proof fn lemma_canon_pairs(es: Entries)
    ensures
        canon_pairs(es).len() == es.len(),
        forall|i: int| 0 <= i < es.len() ==> #[trigger] canon_pairs(es)[i] == (es[i].0, canon(es[i].1)),
    decreases es.len(),
{
    if es.len() > 0 {
        lemma_canon_pairs(es.drop_last());
    }
}

/// Appending one text to a joined sequence.
proof fn lemma_join_push(ts: Seq<Seq<char>>, t: Seq<char>)
    ensures
        join_texts(ts.push(t)) == if ts.len() == 0 {
            t
        } else {
            join_texts(ts) + seq![','] + t
        },
{
    assert(ts.push(t).drop_last() =~= ts);
}

/// `insert_pos` is the first position whose key sorts strictly after
/// `e`'s, or the length.
proof fn lemma_insert_pos(s: Seq<Pair>, e: Pair, i: int)
    requires
        0 <= i <= s.len(),
        forall|j: int| 0 <= j < i ==> !key_lt(e.0, #[trigger] s[j].0),
        i < s.len() ==> key_lt(e.0, s[i].0),
    ensures
        insert_pos(s, e) == i,
    decreases s.len(),
{
    if s.len() > 0 && i > 0 {
        assert(!key_lt(e.0, s[0].0));
        let t = s.drop_first();
        assert forall|j: int| 0 <= j < i - 1 implies !key_lt(e.0, #[trigger] t[j].0) by {
            assert(t[j] == s[j + 1]);
        }
        lemma_insert_pos(t, e, i - 1);
    }
}

/// Quoting after appending one character.
proof fn lemma_escape_push(s: Seq<char>, c: char)
    ensures
        escape_body(s.push(c)) == escape_body(s) + escape_char(c),
{
    assert(s.push(c).drop_last() =~= s);
}

/// UTF-16 after appending one character.
proof fn lemma_utf16_push(s: Seq<char>, c: char)
    ensures
        utf16(s.push(c)) == utf16(s) + units_of(c),
{
    assert(s.push(c).drop_last() =~= s);
}

// ---- executable ---------------------------------------------------------

/// Appends the decimal digits of `n`.
pub fn write_decimal(n: u64, out: &mut String)
    ensures
        final(out)@ == old(out)@ + decimal(n as nat),
    decreases n,
{
    if n >= 10 {
        write_decimal(n / 10, out);
    }
    let d = (n % 10) as u32;
    let c = char_from_digit(d);
    push_char(out, c);
    if n >= 10 {
        assert(decimal(n as nat) == decimal((n / 10) as nat).push(digit_char((n % 10) as nat)));
    }
}

/// The digit character for `d < 10`.
fn char_from_digit(d: u32) -> (c: char)
    requires
        d < 10,
    ensures
        c == digit_char(d as nat),
{
    let code: u32 = d + 48;
    let c = char_from_ascii(code);
    c
}

/// The character with code point `code < 128`.
fn char_from_ascii(code: u32) -> (c: char)
    requires
        code < 128,
    ensures
        c == (code as char),
{
    let b: u8 = code as u8;
    b as char
}

/// The lowercase hex digit for `d < 16`.
pub(crate) fn char_from_hex(d: u32) -> (c: char)
    requires
        d < 16,
    ensures
        c == hex_char(d as nat),
{
    if d < 10 {
        char_from_ascii(d + 48)
    } else {
        char_from_ascii(d + 87)
    }
}

/// Appends the JSON text of one string character.
fn write_escaped_char(c: char, out: &mut String)
    ensures
        final(out)@ == old(out)@ + escape_char(c),
{
    let ghost o = out@;
    let v = c as u32;
    if c == '"' {
        push_char(out, '\\');
        push_char(out, '"');
    } else if c == '\\' {
        push_char(out, '\\');
        push_char(out, '\\');
    } else if c == '\u{8}' {
        push_char(out, '\\');
        push_char(out, 'b');
    } else if c == '\u{c}' {
        push_char(out, '\\');
        push_char(out, 'f');
    } else if c == '\n' {
        push_char(out, '\\');
        push_char(out, 'n');
    } else if c == '\r' {
        push_char(out, '\\');
        push_char(out, 'r');
    } else if c == '\t' {
        push_char(out, '\\');
        push_char(out, 't');
    } else if v < 0x20 {
        push_char(out, '\\');
        push_char(out, 'u');
        push_char(out, '0');
        push_char(out, '0');
        push_char(out, char_from_hex(v / 16));
        push_char(out, char_from_hex(v % 16));
    } else {
        push_char(out, c);
    }
    assert(out@ =~= o + escape_char(c));
}

/// Appends the JSON string literal for `s`.
pub fn write_quoted(s: &str, out: &mut String)
    ensures
        final(out)@ == old(out)@ + quote(s@),
{
    let ghost o = out@;
    let cs = crate::text::chars_of(s);
    push_char(out, '"');
    let n = cs.len();
    for i in 0..n
        invariant
            n == cs@.len(),
            cs@ == s@,
            out@ == o + seq!['"'] + escape_body(cs@.take(i as int)),
    {
        proof {
            lemma_escape_push(cs@.take(i as int), cs@[i as int]);
            assert(cs@.take(i + 1) =~= cs@.take(i as int).push(cs@[i as int]));
        }
        write_escaped_char(cs[i], out);
        assert(out@ =~= o + seq!['"'] + escape_body(cs@.take(i + 1)));
    }
    push_char(out, '"');
    assert(cs@.take(n as int) =~= s@);
    assert(out@ =~= o + quote(s@));
}

/// UTF-16 code units of `s`.
pub fn utf16_of(s: &str) -> (r: Vec<u16>)
    ensures
        r@ == utf16(s@),
{
    let cs = crate::text::chars_of(s);
    let mut r: Vec<u16> = Vec::new();
    let n = cs.len();
    for i in 0..n
        invariant
            n == cs@.len(),
            cs@ == s@,
            r@ == utf16(cs@.take(i as int)),
    {
        let ghost before = r@;
        let v = cs[i] as u32;
        if v < 0x10000 {
            r.push(v as u16);
        } else {
            let w = v - 0x10000;
            r.push((0xD800 + w / 1024) as u16);
            r.push((0xDC00 + w % 1024) as u16);
        }
        proof {
            lemma_utf16_push(cs@.take(i as int), cs@[i as int]);
            assert(cs@.take(i + 1) =~= cs@.take(i as int).push(cs@[i as int]));
        }
        assert(r@ =~= utf16(cs@.take(i + 1)));
    }
    assert(cs@.take(n as int) =~= s@);
    r
}

/// Strict lexicographic comparison of code-unit sequences.
pub fn units_less(a: &Vec<u16>, b: &Vec<u16>) -> (r: bool)
    ensures
        r == units_lt(a@, b@),
{
    let mut i: usize = 0;
    while i < a.len() && i < b.len() && a[i] == b[i]
        invariant
            i <= a@.len(),
            i <= b@.len(),
            forall|j: int| 0 <= j < i ==> a@[j] == b@[j],
        decreases a@.len() - i,
    {
        i = i + 1;
    }
    proof {
        lemma_units_lt_common(a@, b@, i as int);
    }
    if i == b.len() {
        false
    } else if i == a.len() {
        true
    } else {
        a[i] < b[i]
    }
}

/// A common prefix does not change the order.
proof fn lemma_units_lt_common(a: Seq<u16>, b: Seq<u16>, i: int)
    requires
        0 <= i <= a.len(),
        i <= b.len(),
        forall|j: int| 0 <= j < i ==> a[j] == b[j],
    ensures
        units_lt(a, b) == units_lt(a.skip(i), b.skip(i)),
    decreases i,
{
    if i > 0 {
        assert(a[0] == b[0]);
        let a1 = a.drop_first();
        let b1 = b.drop_first();
        assert forall|j: int| 0 <= j < i - 1 implies a1[j] == b1[j] by {
            assert(a1[j] == a[j + 1]);
        }
        lemma_units_lt_common(a1, b1, i - 1);
        assert(a1.skip(i - 1) =~= a.skip(i));
        assert(b1.skip(i - 1) =~= b.skip(i));
    } else {
        assert(a.skip(0) =~= a);
        assert(b.skip(0) =~= b);
    }
}

/// Appends the canonical text of `v`.
pub fn write_canonical(v: &JsonValue, out: &mut String)
    ensures
        final(out)@ == old(out)@ + canon(v@),
    decreases v,
{
    let ghost o = out@;
    match v {
        JsonValue::Null => {
            push_char(out, 'n');
            push_char(out, 'u');
            push_char(out, 'l');
            push_char(out, 'l');
            assert(out@ =~= o + canon(v@));
        },
        JsonValue::Bool(b) => {
            if *b {
                push_char(out, 't');
                push_char(out, 'r');
                push_char(out, 'u');
                push_char(out, 'e');
                assert(out@ =~= o + canon(v@));
            } else {
                push_char(out, 'f');
                push_char(out, 'a');
                push_char(out, 'l');
                push_char(out, 's');
                push_char(out, 'e');
                assert(out@ =~= o + canon(v@));
            }
        },
        JsonValue::Number(n) => match n {
            crate::json::JsonNumber::PosInt(u) => write_decimal(*u, out),
            crate::json::JsonNumber::NegInt(i) => {
                if *i < 0 {
                    push_char(out, '-');
                    let m: u64 = if *i == -9223372036854775808i64 {
                        9223372036854775808u64
                    } else {
                        (-*i) as u64
                    };
                    write_decimal(m, out);
                } else {
                    write_decimal(*i as u64, out);
                }
                assert(out@ =~= o + canon(v@));
            },
            crate::json::JsonNumber::Float(t) => crate::text::push_str(out, t.as_str()),
        },
        JsonValue::String(s) => write_quoted(s.as_str(), out),
        JsonValue::Array(items) => {
            let ghost texts = canon_items(jv_seq(items@));
            proof {
                lemma_canon_items(jv_seq(items@));
            }
            push_char(out, '[');
            let n = items.len();
            for i in 0..n
                invariant
                    n == items@.len(),
                    *v == JsonValue::Array(*items),
                    texts == canon_items(jv_seq(items@)),
                    texts.len() == n,
                    forall|j: int| 0 <= j < n ==> #[trigger] texts[j] == canon(items@[j]@),
                    out@ == o + seq!['['] + join_texts(texts.take(i as int)),
            {
                proof {
                    assert(decreases_to!(*v => (*v)->Array_0));
                    assert(decreases_to!(*items => items[i as int]));
                    lemma_join_push(texts.take(i as int), texts[i as int]);
                    assert(texts.take(i + 1) =~= texts.take(i as int).push(texts[i as int]));
                }
                if i > 0 {
                    push_char(out, ',');
                }
                write_canonical(&items[i], out);
                assert(out@ =~= o + seq!['['] + join_texts(texts.take(i + 1)));
            }
            push_char(out, ']');
            assert(texts.take(n as int) =~= texts);
        },
        JsonValue::Object(m) => {
            let ghost es = m@;
            let ghost pairs = canon_pairs(es);
            proof {
                lemma_canon_pairs(es);
            }
            // Render each member's value, then sort the members by key.
            let mut sorted_keys: Vec<Vec<u16>> = Vec::new();
            let mut sorted: Vec<(String, String)> = Vec::new();
            let n = m.entries.len();
            for i in 0..n
                invariant
                    n == m.entries@.len(),
                    n == es.len(),
                    es == m@,
                    *v == JsonValue::Object(*m),
                    pairs == canon_pairs(es),
                    pairs.len() == n,
                    forall|j: int| 0 <= j < n ==> #[trigger] pairs[j] == (es[j].0, canon(es[j].1)),
                    sorted_keys@.len() == sorted@.len(),
                    forall|j: int| 0 <= j < sorted@.len() ==> #[trigger] sorted_keys@[j]@ == utf16(sorted@[j].0@),
                    pair_views(sorted@) == sort_pairs(pairs.take(i as int)),
            {
                proof {
                    assert(decreases_to!(*v => (*v)->Object_0));
                    assert(decreases_to!(*m => m.entries));
                    assert(decreases_to!(m.entries => m.entries[i as int]));
                    assert(decreases_to!(m.entries[i as int] => m.entries[i as int].1));
                    assert(es[i as int] == (m.entries@[i as int].0@, m.entries@[i as int].1@));
                }
                let mut text = String::new();
                write_canonical(&m.entries[i].1, &mut text);
                let key = m.entries[i].0.clone();
                let units = utf16_of(key.as_str());
                let ghost e: Pair = (key@, text@);
                let ghost old_sorted = pair_views(sorted@);
                let mut p: usize = 0;
                while p < sorted.len() && !units_less(&units, &sorted_keys[p])
                    invariant
                        p <= sorted@.len(),
                        sorted_keys@.len() == sorted@.len(),
                        units@ == utf16(e.0),
                        old_sorted == pair_views(sorted@),
                        forall|j: int| 0 <= j < sorted@.len() ==> #[trigger] sorted_keys@[j]@ == utf16(sorted@[j].0@),
                        forall|j: int| 0 <= j < p ==> !key_lt(e.0, #[trigger] old_sorted[j].0),
                    decreases sorted@.len() - p,
                {
                    assert(old_sorted[p as int].0 == sorted@[p as int].0@);
                    p = p + 1;
                }
                proof {
                    if p < sorted@.len() {
                        assert(old_sorted[p as int].0 == sorted@[p as int].0@);
                    }
                    lemma_insert_pos(old_sorted, e, p as int);
                }
                sorted.insert(p, (key, text));
                sorted_keys.insert(p, units);
                proof {
                    assert(pairs.take(i + 1).drop_last() =~= pairs.take(i as int));
                    assert(pairs.take(i + 1).last() == e);
                    assert(pair_views(sorted@) =~= insert_sorted(old_sorted, e));
                }
            }
            assert(pairs.take(n as int) =~= pairs);
            let ghost ps = pair_views(sorted@);
            let ghost rendered = ps.map_values(|q: Pair| render_pair(q));
            push_char(out, '{');
            let k = sorted.len();
            for i in 0..k
                invariant
                    k == sorted@.len(),
                    ps == pair_views(sorted@),
                    ps == sort_pairs(pairs),
                    rendered == ps.map_values(|q: Pair| render_pair(q)),
                    out@ == o + seq!['{'] + join_texts(rendered.take(i as int)),
            {
                proof {
                    lemma_join_push(rendered.take(i as int), rendered[i as int]);
                    assert(rendered.take(i + 1) =~= rendered.take(i as int).push(rendered[i as int]));
                }
                if i > 0 {
                    push_char(out, ',');
                }
                write_quoted(sorted[i].0.as_str(), out);
                push_char(out, ':');
                crate::text::push_str(out, sorted[i].1.as_str());
                assert(out@ =~= o + seq!['{'] + join_texts(rendered.take(i + 1)));
            }
            push_char(out, '}');
            assert(rendered.take(k as int) =~= rendered);
        },
    }
}

/// Views of rendered members.
pub open spec fn pair_views(s: Seq<(String, String)>) -> Seq<Pair> {
    s.map_values(|p: (String, String)| (p.0@, p.1@))
}

/// Serialize `v` per RFC 8785.
pub fn to_string(v: &JsonValue) -> (r: String)
    ensures
        r@ == canon(v@),
{
    let mut out = String::new();
    write_canonical(v, &mut out);
    assert(out@ =~= canon(v@));
    out
}


// ---- member order does not matter -------------------------------------------------------

proof fn lemma_units_lt_irreflexive(a: Seq<u16>)
    ensures
        !units_lt(a, a),
    decreases a.len(),
{
    if a.len() > 0 {
        lemma_units_lt_irreflexive(a.drop_first());
    }
}

proof fn lemma_units_lt_transitive(a: Seq<u16>, b: Seq<u16>, c: Seq<u16>)
    requires
        units_lt(a, b),
        units_lt(b, c),
    ensures
        units_lt(a, c),
    decreases a.len(),
{
    if a.len() > 0 && b.len() > 0 && c.len() > 0 && a[0] == b[0] && b[0] == c[0] {
        lemma_units_lt_transitive(a.drop_first(), b.drop_first(), c.drop_first());
    }
}

proof fn lemma_units_lt_total(a: Seq<u16>, b: Seq<u16>)
    requires
        a != b,
    ensures
        units_lt(a, b) || units_lt(b, a),
    decreases a.len(),
{
    if a.len() > 0 && b.len() > 0 && a[0] == b[0] {
        if a.drop_first() == b.drop_first() {
            assert(a =~= seq![a[0]] + a.drop_first());
            assert(b =~= seq![b[0]] + b.drop_first());
        }
        lemma_units_lt_total(a.drop_first(), b.drop_first());
    } else if a.len() == 0 && b.len() == 0 {
        assert(a =~= b);
    }
}

proof fn lemma_units_of(c: char)
    ensures
        (c as u32) < 0x10000 ==> units_of(c).len() == 1 && !(0xDC00 <= units_of(c)[0] <= 0xDFFF),
        (c as u32) >= 0x10000 ==> units_of(c).len() == 2 && 0xDC00 <= units_of(c)[1] <= 0xDFFF,
{
}

proof fn lemma_units_of_injective(c: char, d: char)
    requires
        units_of(c) == units_of(d),
    ensures
        c == d,
{
    let v = c as u32;
    let w = d as u32;
    if v < 0x10000 && w < 0x10000 {
        assert(units_of(c)[0] == units_of(d)[0]);
        assert(units_of(c)[0] == v);
        assert(units_of(d)[0] == w);
        assert(v == w);
    } else if v >= 0x10000 && w >= 0x10000 {
        assert(units_of(c)[0] == units_of(d)[0]);
        assert(units_of(c)[1] == units_of(d)[1]);
        assert((v - 0x10000) / 1024 == (w - 0x10000) / 1024);
        assert((v - 0x10000) % 1024 == (w - 0x10000) % 1024);
        assert(v == w) by (nonlinear_arith)
            requires
                v >= 0x10000,
                w >= 0x10000,
                (v - 0x10000) / 1024 == (w - 0x10000) / 1024,
                (v - 0x10000) % 1024 == (w - 0x10000) % 1024;
    } else {
        lemma_units_of(c);
        lemma_units_of(d);
    }
}

/// UTF-16 encoding is injective.
proof fn lemma_utf16_injective(a: Seq<char>, b: Seq<char>)
    requires
        utf16(a) == utf16(b),
    ensures
        a == b,
    decreases a.len() + b.len(),
{
    if a.len() == 0 || b.len() == 0 {
        if a.len() > 0 {
            lemma_units_of(a.last());
            assert(utf16(a) == utf16(a.drop_last()) + units_of(a.last()));
            assert(utf16(a).len() > 0);
        }
        if b.len() > 0 {
            lemma_units_of(b.last());
            assert(utf16(b) == utf16(b.drop_last()) + units_of(b.last()));
            assert(utf16(b).len() > 0);
        }
        assert(a =~= b);
    } else {
        let ca = a.last();
        let cb = b.last();
        let ua = units_of(ca);
        let ub = units_of(cb);
        let pa = utf16(a.drop_last());
        let pb = utf16(b.drop_last());
        lemma_units_of(ca);
        lemma_units_of(cb);
        let u = utf16(a);
        assert(u == pa + ua);
        assert(u == pb + ub);
        assert(u[u.len() - 1] == ua[ua.len() - 1]);
        assert(u[u.len() - 1] == ub[ub.len() - 1]);
        assert(ua.len() == ub.len());
        assert(ua =~= u.subrange(u.len() - ua.len(), u.len() as int));
        assert(ub =~= u.subrange(u.len() - ub.len(), u.len() as int));
        assert(pa =~= u.subrange(0, u.len() - ua.len()));
        assert(pb =~= u.subrange(0, u.len() - ub.len()));
        lemma_units_of_injective(ca, cb);
        lemma_utf16_injective(a.drop_last(), b.drop_last());
        assert(a =~= a.drop_last().push(ca));
        assert(b =~= b.drop_last().push(cb));
    }
}

/// Distinct keys are ordered one way or the other, never both.
pub proof fn lemma_key_order(a: Seq<char>, b: Seq<char>)
    ensures
        !key_lt(a, a),
        a != b ==> (key_lt(a, b) || key_lt(b, a)),
        key_lt(a, b) ==> !key_lt(b, a),
{
    lemma_units_lt_irreflexive(utf16(a));
    if a != b {
        if utf16(a) == utf16(b) {
            lemma_utf16_injective(a, b);
        }
        lemma_units_lt_total(utf16(a), utf16(b));
    }
    if key_lt(a, b) && key_lt(b, a) {
        lemma_units_lt_transitive(utf16(a), utf16(b), utf16(a));
        lemma_units_lt_irreflexive(utf16(a));
    }
}

proof fn lemma_key_lt_transitive(a: Seq<char>, b: Seq<char>, c: Seq<char>)
    requires
        key_lt(a, b),
        key_lt(b, c),
    ensures
        key_lt(a, c),
{
    lemma_units_lt_transitive(utf16(a), utf16(b), utf16(c));
}

/// Members in strictly ascending key order.
pub open spec fn strictly_sorted(s: Seq<Pair>) -> bool {
    forall|i: int, j: int| 0 <= i < j < s.len() ==> key_lt(#[trigger] s[i].0, #[trigger] s[j].0)
}

/// No two members share a key.
pub open spec fn distinct_pair_keys(s: Seq<Pair>) -> bool {
    forall|i: int, j: int| 0 <= i < j < s.len() ==> #[trigger] s[i].0 != #[trigger] s[j].0
}

proof fn lemma_insert_pos_props(s: Seq<Pair>, e: Pair)
    ensures
        0 <= insert_pos(s, e) <= s.len(),
        forall|j: int| 0 <= j < insert_pos(s, e) ==> !key_lt(e.0, #[trigger] s[j].0),
        insert_pos(s, e) < s.len() ==> key_lt(e.0, s[insert_pos(s, e)].0),
    decreases s.len(),
{
    if s.len() > 0 && !key_lt(e.0, s[0].0) {
        let t = s.drop_first();
        lemma_insert_pos_props(t, e);
        assert forall|j: int| 0 <= j < insert_pos(s, e) implies !key_lt(e.0, #[trigger] s[j].0) by {
            if j > 0 {
                assert(s[j] == t[j - 1]);
            }
        }
        if insert_pos(s, e) < s.len() {
            assert(s[insert_pos(s, e)] == t[insert_pos(t, e)]);
        }
    }
}

proof fn lemma_insert_sorted(s: Seq<Pair>, e: Pair)
    requires
        strictly_sorted(s),
        forall|j: int| 0 <= j < s.len() ==> (#[trigger] s[j]).0 != e.0,
    ensures
        strictly_sorted(insert_sorted(s, e)),
        insert_sorted(s, e).len() == s.len() + 1,
        forall|x: Pair| insert_sorted(s, e).contains(x) <==> (s.contains(x) || x == e),
{
    let p = insert_pos(s, e);
    lemma_insert_pos_props(s, e);
    let r = insert_sorted(s, e);
    assert(r.len() == s.len() + 1);
    assert forall|i: int| 0 <= i < r.len() implies #[trigger] r[i] == (if i < p {
        s[i]
    } else if i == p {
        e
    } else {
        s[i - 1]
    }) by {}
    assert forall|j: int| 0 <= j < p implies key_lt(#[trigger] s[j].0, e.0) by {
        lemma_key_order(s[j].0, e.0);
    }
    assert forall|j: int| p <= j < s.len() implies key_lt(e.0, #[trigger] s[j].0) by {
        if j > p {
            lemma_key_lt_transitive(e.0, s[p].0, s[j].0);
        }
    }
    assert forall|i: int, j: int| 0 <= i < j < r.len() implies key_lt(#[trigger] r[i].0, #[trigger] r[j].0) by {
        if i < p && j < p {
        } else if i < p && j == p {
        } else if i < p {
            lemma_key_lt_transitive(s[i].0, e.0, s[j - 1].0);
        } else if i == p {
        } else {
            assert(r[i] == s[i - 1] && r[j] == s[j - 1]);
        }
    }
    assert forall|x: Pair| r.contains(x) <==> (s.contains(x) || x == e) by {
        if r.contains(x) {
            let i = choose|i: int| 0 <= i < r.len() && r[i] == x;
            if i < p {
                assert(s[i] == x);
            } else if i > p {
                assert(s[i - 1] == x);
            }
        }
        if s.contains(x) {
            let k = choose|k: int| 0 <= k < s.len() && s[k] == x;
            if k < p {
                assert(r[k] == x);
            } else {
                assert(r[k + 1] == x);
            }
        }
        if x == e {
            assert(r[p] == x);
        }
    }
}

/// Sorting members with distinct keys puts them in strictly ascending key
/// order and keeps every member.
pub proof fn lemma_sort_pairs(s: Seq<Pair>)
    requires
        distinct_pair_keys(s),
    ensures
        strictly_sorted(sort_pairs(s)),
        sort_pairs(s).len() == s.len(),
        forall|x: Pair| sort_pairs(s).contains(x) <==> s.contains(x),
    decreases s.len(),
{
    if s.len() > 0 {
        let t = s.drop_last();
        assert forall|i: int, j: int| 0 <= i < j < t.len() implies #[trigger] t[i].0 != #[trigger] t[j].0 by {
            assert(t[i] == s[i] && t[j] == s[j]);
        }
        lemma_sort_pairs(t);
        let st = sort_pairs(t);
        assert forall|j: int| 0 <= j < st.len() implies (#[trigger] st[j]).0 != s.last().0 by {
            assert(st.contains(st[j]));
            assert(t.contains(st[j]));
            let k = choose|k: int| 0 <= k < t.len() && t[k] == st[j];
            assert(s[k] == st[j]);
            assert(s[k].0 != s[s.len() - 1].0);
        }
        lemma_insert_sorted(st, s.last());
        assert forall|x: Pair| sort_pairs(s).contains(x) <==> s.contains(x) by {
            if s.contains(x) {
                let k = choose|k: int| 0 <= k < s.len() && s[k] == x;
                if k < s.len() - 1 {
                    assert(t[k] == x);
                    assert(t.contains(x));
                }
            }
            if t.contains(x) {
                let k = choose|k: int| 0 <= k < t.len() && t[k] == x;
                assert(s[k] == x);
            }
        }
    }
}

/// Two strictly sorted member sequences with the same members are equal.
pub proof fn lemma_sorted_unique(x: Seq<Pair>, y: Seq<Pair>)
    requires
        strictly_sorted(x),
        strictly_sorted(y),
        forall|p: Pair| x.contains(p) <==> y.contains(p),
    ensures
        x == y,
    decreases x.len(),
{
    if x.len() == 0 || y.len() == 0 {
        if y.len() > 0 {
            assert(y.contains(y[0]));
        }
        if x.len() > 0 {
            assert(x.contains(x[0]));
        }
        assert(x =~= y);
    } else {
        assert(x.contains(x[0]));
        assert(y.contains(y[0]));
        let k = choose|k: int| 0 <= k < y.len() && y[k] == x[0];
        let m = choose|m: int| 0 <= m < x.len() && x[m] == y[0];
        if x[0] != y[0] {
            assert(k > 0 && m > 0);
            assert(key_lt(y[0].0, y[k].0));
            assert(key_lt(x[0].0, x[m].0));
            lemma_key_order(x[0].0, y[0].0);
        }
        let x1 = x.drop_first();
        let y1 = y.drop_first();
        assert forall|p: Pair| x1.contains(p) <==> y1.contains(p) by {
            if x1.contains(p) {
                let i = choose|i: int| 0 <= i < x1.len() && x1[i] == p;
                assert(x[i + 1] == p);
                assert(key_lt(x[0].0, x[i + 1].0));
                lemma_key_order(x[0].0, x[0].0);
                assert(x.contains(p));
                assert(y.contains(p));
                let j = choose|j: int| 0 <= j < y.len() && y[j] == p;
                assert(j != 0);
                assert(y1[j - 1] == p);
            }
            if y1.contains(p) {
                let i = choose|i: int| 0 <= i < y1.len() && y1[i] == p;
                assert(y[i + 1] == p);
                assert(key_lt(y[0].0, y[i + 1].0));
                lemma_key_order(y[0].0, y[0].0);
                assert(y.contains(p));
                assert(x.contains(p));
                let j = choose|j: int| 0 <= j < x.len() && x[j] == p;
                assert(j != 0);
                assert(x1[j - 1] == p);
            }
        }
        lemma_sorted_unique(x1, y1);
        assert(x =~= seq![x[0]] + x1);
        assert(y =~= seq![y[0]] + y1);
    }
}

/// No two members of an object share a key.
pub open spec fn distinct_keys(es: Entries) -> bool {
    forall|i: int, j: int| 0 <= i < j < es.len() ==> #[trigger] es[i].0 != #[trigger] es[j].0
}

/// Reordering the members of an object (distinct keys) leaves its
/// canonical text unchanged.
pub proof fn law_canon_ignores_member_order(es1: Entries, es2: Entries)
    requires
        distinct_keys(es1),
        distinct_keys(es2),
        forall|m: (Seq<char>, JView)| es1.contains(m) <==> es2.contains(m),
    ensures
        canon(JView::Object(es1)) == canon(JView::Object(es2)),
{
    let p1 = canon_pairs(es1);
    let p2 = canon_pairs(es2);
    lemma_canon_pairs(es1);
    lemma_canon_pairs(es2);
    assert forall|i: int, j: int| 0 <= i < j < p1.len() implies #[trigger] p1[i].0 != #[trigger] p1[j].0 by {
        assert(es1[i].0 != es1[j].0);
    }
    assert forall|i: int, j: int| 0 <= i < j < p2.len() implies #[trigger] p2[i].0 != #[trigger] p2[j].0 by {
        assert(es2[i].0 != es2[j].0);
    }
    assert forall|q: Pair| p1.contains(q) <==> p2.contains(q) by {
        if p1.contains(q) {
            let i = choose|i: int| 0 <= i < p1.len() && p1[i] == q;
            assert(es1.contains(es1[i]));
            let j = choose|j: int| 0 <= j < es2.len() && es2[j] == es1[i];
            assert(p2[j] == q);
        }
        if p2.contains(q) {
            let i = choose|i: int| 0 <= i < p2.len() && p2[i] == q;
            assert(es2.contains(es2[i]));
            let j = choose|j: int| 0 <= j < es1.len() && es1[j] == es2[i];
            assert(p1[j] == q);
        }
    }
    lemma_sort_pairs(p1);
    lemma_sort_pairs(p2);
    assert forall|q: Pair| sort_pairs(p1).contains(q) <==> sort_pairs(p2).contains(q) by {
        assert(sort_pairs(p1).contains(q) <==> p1.contains(q));
        assert(sort_pairs(p2).contains(q) <==> p2.contains(q));
    }
    lemma_sorted_unique(sort_pairs(p1), sort_pairs(p2));
}

/// `a` and `b` are the same JSON value up to the order of object members:
/// arrays item by item, objects (keys distinct) member for member by key.
pub open spec fn reordered(a: JView, b: JView) -> bool
    decreases a,
{
    match a {
        JView::Array(x) => match b {
            JView::Array(y) => x.len() == y.len() && forall|i: int| 0 <= i < x.len() ==> reordered(#[trigger] x[i], y[i]),
            _ => false,
        },
        JView::Object(x) => match b {
            JView::Object(y) => {
                &&& distinct_keys(x)
                &&& distinct_keys(y)
                &&& forall|i: int| 0 <= i < x.len() ==> exists|j: int| 0 <= j < y.len() && #[trigger] x[i].0 == #[trigger] y[j].0 && reordered(x[i].1, y[j].1)
                &&& forall|j: int| 0 <= j < y.len() ==> exists|i: int| 0 <= i < x.len() && #[trigger] x[i].0 == #[trigger] y[j].0 && reordered(x[i].1, y[j].1)
            },
            _ => false,
        },
        _ => a == b,
    }
}

/// Objects whose members correspond key for key (through `f` one way and
/// `g` the other) with equal canonical values have the same canonical text.
#[verifier::spinoff_prover]
pub(crate) proof fn lemma_object_canon(x: Entries, y: Entries, f: spec_fn(int) -> int, g: spec_fn(int) -> int)
    requires
        distinct_keys(x),
        distinct_keys(y),
        forall|i: int| 0 <= i < x.len() ==> 0 <= #[trigger] f(i) < y.len() && x[i].0 == y[f(i)].0 && canon(x[i].1) == canon(y[f(i)].1),
        forall|j: int| 0 <= j < y.len() ==> 0 <= #[trigger] g(j) < x.len() && x[g(j)].0 == y[j].0 && canon(x[g(j)].1) == canon(y[j].1),
    ensures
        canon(JView::Object(x)) == canon(JView::Object(y)),
{
    let p1 = canon_pairs(x);
    let p2 = canon_pairs(y);
    lemma_canon_pairs(x);
    lemma_canon_pairs(y);
    assert forall|i: int, j: int| 0 <= i < j < p1.len() implies #[trigger] p1[i].0 != #[trigger] p1[j].0 by {
        assert(x[i].0 != x[j].0);
    }
    assert forall|i: int, j: int| 0 <= i < j < p2.len() implies #[trigger] p2[i].0 != #[trigger] p2[j].0 by {
        assert(y[i].0 != y[j].0);
    }
    assert forall|q: Pair| p1.contains(q) implies p2.contains(q) by {
        let i = choose|i: int| 0 <= i < p1.len() && p1[i] == q;
        let j = f(i);
        assert(p2[j] == q);
    }
    assert forall|q: Pair| p2.contains(q) implies p1.contains(q) by {
        let j = choose|j: int| 0 <= j < p2.len() && p2[j] == q;
        let i = g(j);
        assert(p1[i] == q);
    }
    lemma_sort_pairs(p1);
    lemma_sort_pairs(p2);
    assert forall|q: Pair| sort_pairs(p1).contains(q) <==> sort_pairs(p2).contains(q) by {
        assert(sort_pairs(p1).contains(q) <==> p1.contains(q));
        assert(sort_pairs(p2).contains(q) <==> p2.contains(q));
    }
    lemma_sorted_unique(sort_pairs(p1), sort_pairs(p2));
}

proof fn lemma_items_reordered(a: JView, b: JView)
    requires
        a is Array,
        reordered(a, b),
    ensures
        canon(a) == canon(b),
    decreases a, 0int,
{
    let x = a->Array_0;
    let y = b->Array_0;
    lemma_canon_items(x);
    lemma_canon_items(y);
    assert forall|i: int| 0 <= i < x.len() implies canon_items(x)[i] == canon_items(y)[i] by {
        assert(reordered(x[i], y[i]));
        assert(decreases_to!(a => a->Array_0));
        assert(decreases_to!(a->Array_0 => x[i]));
        assert(decreases_to!(a => x[i]));
        law_canon_ignores_member_order_deep(x[i], y[i]);
    }
    assert(canon_items(x) =~= canon_items(y));
}

#[verifier::spinoff_prover]
proof fn lemma_members_reordered(a: JView, b: JView)
    requires
        a is Object,
        reordered(a, b),
    ensures
        canon(a) == canon(b),
    decreases a, 0int,
{
    let x = a->Object_0;
    let y = b->Object_0;
    let f = |i: int| choose|j: int| 0 <= j < y.len() && #[trigger] x[i].0 == #[trigger] y[j].0 && reordered(x[i].1, y[j].1);
    let g = |j: int| choose|i: int| 0 <= i < x.len() && #[trigger] x[i].0 == #[trigger] y[j].0 && reordered(x[i].1, y[j].1);
    assert forall|i: int| 0 <= i < x.len() implies 0 <= #[trigger] f(i) < y.len() && x[i].0 == y[f(i)].0 && canon(x[i].1) == canon(y[f(i)].1) by {
        let k = x[i].0;
        let j = f(i);
        assert(decreases_to!(a => a->Object_0));
        assert(decreases_to!(a->Object_0 => x[i]));
        assert(decreases_to!(x[i] => x[i].1));
        assert(decreases_to!(a => x[i].1));
        law_canon_ignores_member_order_deep(x[i].1, y[j].1);
    }
    assert forall|j: int| 0 <= j < y.len() implies 0 <= #[trigger] g(j) < x.len() && x[g(j)].0 == y[j].0 && canon(x[g(j)].1) == canon(y[j].1) by {
        let k = y[j].0;
        let i = g(j);
        assert(decreases_to!(a => a->Object_0));
        assert(decreases_to!(a->Object_0 => x[i]));
        assert(decreases_to!(x[i] => x[i].1));
        assert(decreases_to!(a => x[i].1));
        law_canon_ignores_member_order_deep(x[i].1, y[j].1);
    }
    lemma_object_canon(x, y, f, g);
}

/// Values equal up to the order of object members have the same canonical
/// text.
pub proof fn law_canon_ignores_member_order_deep(a: JView, b: JView)
    requires
        reordered(a, b),
    ensures
        canon(a) == canon(b),
    decreases a, 1int,
{
    if a is Array {
        lemma_items_reordered(a, b);
    } else if a is Object {
        lemma_members_reordered(a, b);
    }
}

// ---- compact text in member order -------------------------------------------------------

/// The compact JSON text of a value, members in their own order (numbers
/// and strings as in the canonical form).
pub open spec fn compact(v: JView) -> Seq<char>
    decreases v,
{
    match v {
        JView::Array(items) => seq!['['] + join_texts(compact_items(items)) + seq![']'],
        JView::Object(es) => seq!['{'] + join_texts(compact_pairs(es)) + seq!['}'],
        _ => canon(v),
    }
}

/// Compact texts of array items.
pub open spec fn compact_items(s: Seq<JView>) -> Seq<Seq<char>>
    decreases s,
{
    if s.len() == 0 {
        Seq::empty()
    } else {
        proof {
            assert(decreases_to!(s => s[s.len() - 1]));
            assert(decreases_to!(s => s.drop_last()));
        }
        compact_items(s.drop_last()).push(compact(s[s.len() - 1]))
    }
}

/// Compact `"key":value` texts of members, in member order.
pub open spec fn compact_pairs(es: Entries) -> Seq<Seq<char>>
    decreases es,
{
    if es.len() == 0 {
        Seq::empty()
    } else {
        proof {
            assert(decreases_to!(es => es[es.len() - 1]));
            assert(decreases_to!(es => es.drop_last()));
        }
        compact_pairs(es.drop_last()).push(quote(es[es.len() - 1].0) + seq![':'] + compact(es[es.len() - 1].1))
    }
}

proof fn lemma_compact_items(s: Seq<JView>)
    ensures
        compact_items(s).len() == s.len(),
        forall|i: int| 0 <= i < s.len() ==> #[trigger] compact_items(s)[i] == compact(s[i]),
    decreases s.len(),
{
    if s.len() > 0 {
        lemma_compact_items(s.drop_last());
    }
}

proof fn lemma_compact_pairs(es: Entries)
    ensures
        compact_pairs(es).len() == es.len(),
        forall|i: int| 0 <= i < es.len() ==> #[trigger] compact_pairs(es)[i] == quote(es[i].0) + seq![':'] + compact(es[i].1),
    decreases es.len(),
{
    if es.len() > 0 {
        lemma_compact_pairs(es.drop_last());
    }
}

/// Appends the compact text of `v`.
pub fn write_compact(v: &JsonValue, out: &mut String)
    ensures
        final(out)@ == old(out)@ + compact(v@),
    decreases v,
{
    let ghost o = out@;
    match v {
        JsonValue::Array(items) => {
            let ghost texts = compact_items(jv_seq(items@));
            proof {
                lemma_compact_items(jv_seq(items@));
            }
            push_char(out, '[');
            let n = items.len();
            for i in 0..n
                invariant
                    n == items@.len(),
                    *v == JsonValue::Array(*items),
                    texts == compact_items(jv_seq(items@)),
                    texts.len() == n,
                    forall|j: int| 0 <= j < n ==> #[trigger] texts[j] == compact(items@[j]@),
                    out@ == o + seq!['['] + join_texts(texts.take(i as int)),
            {
                proof {
                    assert(decreases_to!(*v => (*v)->Array_0));
                    assert(decreases_to!(*items => items[i as int]));
                    lemma_join_push(texts.take(i as int), texts[i as int]);
                    assert(texts.take(i + 1) =~= texts.take(i as int).push(texts[i as int]));
                }
                if i > 0 {
                    push_char(out, ',');
                }
                write_compact(&items[i], out);
                assert(out@ =~= o + seq!['['] + join_texts(texts.take(i + 1)));
            }
            push_char(out, ']');
            assert(texts.take(n as int) =~= texts);
        },
        JsonValue::Object(m) => {
            let ghost texts = compact_pairs(m@);
            proof {
                lemma_compact_pairs(m@);
            }
            push_char(out, '{');
            let n = m.entries.len();
            for i in 0..n
                invariant
                    n == m.entries@.len(),
                    *v == JsonValue::Object(*m),
                    texts == compact_pairs(m@),
                    texts.len() == n,
                    forall|j: int| 0 <= j < n ==> #[trigger] texts[j] == quote(m@[j].0) + seq![':'] + compact(m@[j].1),
                    out@ == o + seq!['{'] + join_texts(texts.take(i as int)),
            {
                proof {
                    assert(decreases_to!(*v => (*v)->Object_0));
                    assert(decreases_to!(*m => m.entries));
                    assert(decreases_to!(m.entries => m.entries[i as int]));
                    assert(decreases_to!(m.entries[i as int] => m.entries[i as int].1));
                    assert(m@[i as int] == (m.entries@[i as int].0@, m.entries@[i as int].1@));
                    lemma_join_push(texts.take(i as int), texts[i as int]);
                    assert(texts.take(i + 1) =~= texts.take(i as int).push(texts[i as int]));
                }
                let ghost before = out@;
                if i > 0 {
                    push_char(out, ',');
                }
                let ghost mid = out@;
                write_quoted(m.entries[i].0.as_str(), out);
                push_char(out, ':');
                write_compact(&m.entries[i].1, out);
                assert(out@ =~= mid + texts[i as int]);
                assert(out@ =~= o + seq!['{'] + join_texts(texts.take(i + 1)));
            }
            push_char(out, '}');
            assert(texts.take(n as int) =~= texts);
        },
        _ => write_canonical(v, out),
    }
}
} // verus!
