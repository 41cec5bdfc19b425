//! `$target` paths: parse, resolve, and apply transforms.
//!
//! Grammar: a root (`$target`, or the deprecated alias `$policy_target`)
//! followed by dot-members (`.name`), bracket-members (`["name"]`) and
//! bracket-indexes (`[0]`). Member names use ASCII letters, digits, `_`
//! and `-`.
use vstd::prelude::*;
use crate::json::{group_json_view, jv_seq, lemma_map_insert, map_get, map_insert, JView, JsonValue};
use crate::types::HostError;

verus! {

broadcast use group_json_view;

/// A parsed path segment.
#[derive(Debug, PartialEq, Eq)]
pub enum Segment {
    Member(String),
    Index(usize),
}

/// View of a segment.
pub enum SegSpec {
    Member(Seq<char>),
    Index(nat),
}

impl View for Segment {
    type V = SegSpec;

    open spec fn view(&self) -> SegSpec {
        match self {
            Segment::Member(s) => SegSpec::Member(s@),
            Segment::Index(i) => SegSpec::Index(*i as nat),
        }
    }
}

/// Views of segments.
pub open spec fn segs_view(s: Seq<Segment>) -> Seq<SegSpec> {
    s.map_values(|x: Segment| x@)
}

// ---- grammar --------------------------------------------------------------

/// `$target`
pub open spec fn target_root() -> Seq<u8> {
    seq![36u8, 116u8, 97u8, 114u8, 103u8, 101u8, 116u8]
}

/// `$policy_target`
pub open spec fn policy_target_root() -> Seq<u8> {
    seq![36u8, 112u8, 111u8, 108u8, 105u8, 99u8, 121u8, 95u8, 116u8, 97u8, 114u8, 103u8, 101u8, 116u8]
}

/// `p` is a prefix of `b`.
pub open spec fn bytes_prefix(b: Seq<u8>, p: Seq<u8>) -> bool {
    p.len() <= b.len() && b.subrange(0, p.len() as int) == p
}

/// Length of the root `b` starts with, or `-1` when it starts with neither.
pub open spec fn root_len(b: Seq<u8>) -> int {
    if bytes_prefix(b, target_root()) {
        7
    } else if bytes_prefix(b, policy_target_root()) {
        14
    } else {
        -1
    }
}

/// A byte allowed in a member name.
pub open spec fn is_member_byte(c: u8) -> bool {
    (48 <= c <= 57) || (65 <= c <= 90) || (97 <= c <= 122) || c == 95 || c == 45
}

/// An ASCII digit.
pub open spec fn is_digit_byte(c: u8) -> bool {
    48 <= c <= 57
}

/// Number of member bytes starting at `i`.
pub open spec fn member_run(b: Seq<u8>, i: int) -> nat
    decreases b.len() - i,
{
    if 0 <= i < b.len() && is_member_byte(b[i]) {
        1 + member_run(b, i + 1)
    } else {
        0
    }
}

/// Number of digit bytes starting at `i`.
pub open spec fn digit_run(b: Seq<u8>, i: int) -> nat
    decreases b.len() - i,
{
    if 0 <= i < b.len() && is_digit_byte(b[i]) {
        1 + digit_run(b, i + 1)
    } else {
        0
    }
}

/// The value of a run of decimal digits.
pub open spec fn digits_value(d: Seq<u8>) -> nat
    decreases d.len(),
{
    if d.len() == 0 {
        0
    } else {
        digits_value(d.drop_last()) * 10 + (d.last() - 48) as nat
    }
}

/// ASCII bytes as characters.
pub open spec fn ascii_chars(b: Seq<u8>) -> Seq<char> {
    b.map_values(|x: u8| x as char)
}

/// Segments of `b` from byte `i` on.
pub open spec fn parse_from(b: Seq<u8>, i: int) -> Option<Seq<SegSpec>>
    decreases b.len() - i,
{
    if i < 0 || i > b.len() {
        None
    } else if i == b.len() {
        Some(Seq::empty())
    } else if b[i] == 46 {
        let n = member_run(b, i + 1);
        proof {
            lemma_member_run_bound(b, i + 1);
        }
        if n == 0 {
            None
        } else {
            match parse_from(b, i + 1 + n) {
                Some(rest) => Some(seq![SegSpec::Member(ascii_chars(b.subrange(i + 1, i + 1 + n)))] + rest),
                None => None,
            }
        }
    } else if b[i] == 91 {
        if i + 1 < b.len() && b[i + 1] == 34 {
            let n = member_run(b, i + 2);
            proof {
                lemma_member_run_bound(b, i + 2);
            }
            let j = i + 2 + n;
            if j + 1 < b.len() && b[j] == 34 && b[j + 1] == 93 {
                match parse_from(b, j + 2) {
                    Some(rest) => Some(seq![SegSpec::Member(ascii_chars(b.subrange(i + 2, j)))] + rest),
                    None => None,
                }
            } else {
                None
            }
        } else {
            let d = digit_run(b, i + 1);
            proof {
                lemma_digit_run_bound(b, i + 1);
            }
            let j = i + 1 + d;
            if d > 0 && j < b.len() && b[j] == 93 && digits_value(b.subrange(i + 1, j)) <= usize::MAX {
                match parse_from(b, j + 1) {
                    Some(rest) => Some(seq![SegSpec::Index(digits_value(b.subrange(i + 1, j)))] + rest),
                    None => None,
                }
            } else {
                None
            }
        }
    } else {
        None
    }
}

/// The result of parsing `path`.
pub open spec fn spec_parse(path: Seq<char>) -> Result<Seq<SegSpec>, HostError> {
    let b = vstd::utf8::encode_utf8(path);
    let r = root_len(b);
    if r < 0 {
        Err(HostError::TransformTargetForbidden)
    } else {
        match parse_from(b, r) {
            Some(s) => Ok(s),
            None => Err(HostError::TransformInvalid),
        }
    }
}

// ---- the `$policy_target` alias ----------------------------------------------------------

/// UTF-8 encoding distributes over concatenation.
pub proof fn lemma_encode_utf8_append(a: Seq<char>, b: Seq<char>)
    ensures
        vstd::utf8::encode_utf8(a + b) == vstd::utf8::encode_utf8(a) + vstd::utf8::encode_utf8(b),
    decreases a.len(),
{
    if a.len() == 0 {
        assert(a + b =~= b);
        assert(vstd::utf8::encode_utf8(a) =~= Seq::<u8>::empty());
        assert(Seq::<u8>::empty() + vstd::utf8::encode_utf8(b) =~= vstd::utf8::encode_utf8(b));
    } else {
        assert((a + b).drop_first() =~= a.drop_first() + b);
        assert((a + b)[0] == a[0]);
        lemma_encode_utf8_append(a.drop_first(), b);
        let h = vstd::utf8::encode_scalar(a[0] as u32);
        assert(h + (vstd::utf8::encode_utf8(a.drop_first()) + vstd::utf8::encode_utf8(b))
            =~= (h + vstd::utf8::encode_utf8(a.drop_first())) + vstd::utf8::encode_utf8(b));
    }
}

proof fn lemma_member_run_shift(x: Seq<u8>, e: Seq<u8>, i: int)
    requires
        0 <= i,
    ensures
        member_run(x + e, x.len() + i) == member_run(e, i),
    decreases e.len() - i,
{
    if i < e.len() {
        assert((x + e)[x.len() + i] == e[i]);
        lemma_member_run_shift(x, e, i + 1);
    }
}

proof fn lemma_digit_run_shift(x: Seq<u8>, e: Seq<u8>, i: int)
    requires
        0 <= i,
    ensures
        digit_run(x + e, x.len() + i) == digit_run(e, i),
    decreases e.len() - i,
{
    if i < e.len() {
        assert((x + e)[x.len() + i] == e[i]);
        lemma_digit_run_shift(x, e, i + 1);
    }
}

/// Parsing segments depends only on the bytes from the starting point on.
proof fn lemma_parse_from_shift(x: Seq<u8>, e: Seq<u8>, i: int)
    requires
        0 <= i,
    ensures
        parse_from(x + e, x.len() + i) == parse_from(e, i),
    decreases e.len() - i,
{
    let b = x + e;
    let j = x.len() + i;
    if i < e.len() {
        assert(b[j] == e[i]);
        if e[i] == 46 {
            lemma_member_run_shift(x, e, i + 1);
            lemma_member_run_bound(e, i + 1);
            let n = member_run(e, i + 1);
            if n > 0 {
                lemma_parse_from_shift(x, e, i + 1 + n);
                assert(b.subrange(j + 1, j + 1 + n) =~= e.subrange(i + 1, i + 1 + n));
            }
        } else if e[i] == 91 {
            if i + 1 < e.len() && e[i + 1] == 34 {
                assert(b[j + 1] == e[i + 1]);
                lemma_member_run_shift(x, e, i + 2);
                lemma_member_run_bound(e, i + 2);
                let n = member_run(e, i + 2);
                let k = i + 2 + n;
                if k + 1 < e.len() {
                    assert(b[x.len() + k] == e[k]);
                    assert(b[x.len() + k + 1] == e[k + 1]);
                    lemma_parse_from_shift(x, e, k + 2);
                    assert(b.subrange(j + 2, x.len() + k) =~= e.subrange(i + 2, k));
                }
            } else {
                if i + 1 < e.len() {
                    assert(b[j + 1] == e[i + 1]);
                }
                lemma_digit_run_shift(x, e, i + 1);
                lemma_digit_run_bound(e, i + 1);
                let d = digit_run(e, i + 1);
                let k = i + 1 + d;
                if k < e.len() {
                    assert(b[x.len() + k] == e[k]);
                    lemma_parse_from_shift(x, e, k + 1);
                    assert(b.subrange(j + 1, x.len() + k) =~= e.subrange(i + 1, k));
                }
            }
        }
    }
}

/// The UTF-8 bytes of an ASCII literal.
proof fn lemma_ascii_bytes(s: Seq<char>, b: Seq<u8>)
    requires
        s.len() == b.len(),
        forall|i: int| 0 <= i < s.len() ==> (#[trigger] s[i]) as u32 == b[i] as u32 && b[i] < 128,
    ensures
        vstd::utf8::encode_utf8(s) == b,
    decreases s.len(),
{
    if s.len() > 0 {
        assert forall|i: int| 0 <= i < s.drop_first().len() implies (#[trigger] s.drop_first()[i]) as u32 == b.drop_first()[i] as u32 && b.drop_first()[i] < 128 by {
            assert(s.drop_first()[i] == s[i + 1]);
        }
        lemma_ascii_bytes(s.drop_first(), b.drop_first());
        let c = s[0] as u32;
        assert(c < 128);
        assert(vstd::utf8::encode_scalar(c) == seq![c as u8]) by {
            assert(vstd::utf8::has_width_1_encoding(c));
            assert(vstd::utf8::leading_byte_width_1(c) == c as u8) by (bit_vector)
                requires
                    c < 128;
        }
        assert(b =~= seq![b[0]] + b.drop_first());
    }
}

/// The deprecated root `$policy_target` parses exactly as `$target`: for
/// any rest of the path, the two give the same segments or the same
/// error.
pub proof fn law_policy_target_alias(rest: Seq<char>)
    ensures
        spec_parse("$policy_target"@ + rest) == spec_parse("$target"@ + rest),
{
    reveal_strlit("$policy_target");
    reveal_strlit("$target");
    let e = vstd::utf8::encode_utf8(rest);
    let t = target_root();
    let p = policy_target_root();
    lemma_ascii_bytes("$target"@, t);
    lemma_ascii_bytes("$policy_target"@, p);
    lemma_encode_utf8_append("$target"@, rest);
    lemma_encode_utf8_append("$policy_target"@, rest);
    let bt = t + e;
    let bp = p + e;
    assert(bt.subrange(0, 7) =~= t);
    assert(bp.subrange(0, 14) =~= p);
    assert(bp.subrange(0, 7)[1] != t[1]);
    assert(root_len(bt) == 7);
    assert(root_len(bp) == 14);
    lemma_parse_from_shift(t, e, 0);
    lemma_parse_from_shift(p, e, 0);
}

// ---- rendering a path ---------------------------------------------------------------------

/// A character allowed in a member name.
pub open spec fn member_name_char(c: char) -> bool {
    (c as u32) < 128 && is_member_byte((c as u32) as u8)
}

/// The text of one segment: `.name` or `[i]`.
pub open spec fn seg_text(g: SegSpec) -> Seq<char> {
    match g {
        SegSpec::Member(m) => "."@ + m,
        SegSpec::Index(i) => "["@ + crate::jcs::decimal(i) + "]"@,
    }
}

/// The text of segments, one after another.
pub open spec fn segs_text(s: Seq<SegSpec>) -> Seq<char>
    decreases s.len(),
{
    if s.len() == 0 {
        Seq::empty()
    } else {
        seg_text(s[0]) + segs_text(s.drop_first())
    }
}

/// Segments that dot and index notation can write: non-empty member names
/// of member characters, indexes that fit a `usize`.
pub open spec fn renderable(s: Seq<SegSpec>) -> bool {
    forall|k: int| 0 <= k < s.len() ==> match #[trigger] s[k] {
        SegSpec::Member(m) => m.len() > 0 && forall|j: int| 0 <= j < m.len() ==> member_name_char(#[trigger] m[j]),
        SegSpec::Index(i) => i <= usize::MAX,
    }
}

/// The bytes of an ASCII text.
pub open spec fn text_bytes(t: Seq<char>) -> Seq<u8> {
    t.map_values(|c: char| (c as u32) as u8)
}

/// Every character is ASCII.
pub open spec fn ascii_text(t: Seq<char>) -> bool {
    forall|i: int| 0 <= i < t.len() ==> (#[trigger] t[i] as u32) < 128
}

proof fn lemma_text_bytes_encode(t: Seq<char>)
    requires
        ascii_text(t),
    ensures
        vstd::utf8::encode_utf8(t) == text_bytes(t),
{
    lemma_ascii_bytes(t, text_bytes(t));
}

proof fn lemma_member_run_exact(b: Seq<u8>, i: int, n: int)
    requires
        0 <= i,
        0 <= n,
        i + n <= b.len(),
        forall|k: int| i <= k < i + n ==> is_member_byte(#[trigger] b[k]),
        i + n == b.len() || !is_member_byte(b[i + n]),
    ensures
        member_run(b, i) == n,
    decreases n,
{
    if n > 0 {
        lemma_member_run_exact(b, i + 1, n - 1);
    }
}

proof fn lemma_digit_run_exact(b: Seq<u8>, i: int, n: int)
    requires
        0 <= i,
        0 <= n,
        i + n <= b.len(),
        forall|k: int| i <= k < i + n ==> is_digit_byte(#[trigger] b[k]),
        i + n == b.len() || !is_digit_byte(b[i + n]),
    ensures
        digit_run(b, i) == n,
    decreases n,
{
    if n > 0 {
        lemma_digit_run_exact(b, i + 1, n - 1);
    }
}

/// The digits of `n` are ASCII digits whose value is `n`.
proof fn lemma_decimal_bytes(n: nat)
    ensures
        crate::jcs::decimal(n).len() > 0,
        ascii_text(crate::jcs::decimal(n)),
        forall|k: int| 0 <= k < crate::jcs::decimal(n).len() ==> is_digit_byte(#[trigger] text_bytes(crate::jcs::decimal(n))[k]),
        digits_value(text_bytes(crate::jcs::decimal(n))) == n,
    decreases n,
{
    let d = crate::jcs::decimal(n);
    if n < 10 {
        assert(text_bytes(d).drop_last() =~= Seq::<u8>::empty());
        assert(crate::jcs::digit_char(n) as u32 == n + 48);
        assert(text_bytes(d).last() == (n + 48) as u8);
        assert(digits_value(text_bytes(d)) == digits_value(text_bytes(d).drop_last()) * 10 + (text_bytes(d).last() - 48) as nat);
        assert(digits_value(Seq::<u8>::empty()) == 0);
    } else {
        lemma_decimal_bytes(n / 10);
        let p = crate::jcs::decimal(n / 10);
        assert(d == p.push(crate::jcs::digit_char(n % 10)));
        assert(text_bytes(d).drop_last() =~= text_bytes(p));
        assert forall|k: int| 0 <= k < d.len() implies is_digit_byte(#[trigger] text_bytes(d)[k]) by {
            if k < p.len() {
                assert(text_bytes(d)[k] == text_bytes(p)[k]);
            }
        }
        assert(crate::jcs::digit_char(n % 10) as u32 == n % 10 + 48);
        assert(text_bytes(d).last() == (n % 10 + 48) as u8);
        assert(digits_value(text_bytes(d)) == digits_value(text_bytes(d).drop_last()) * 10 + (text_bytes(d).last() - 48) as nat);
        assert(digits_value(text_bytes(p)) == n / 10);
        assert(n == (n / 10) * 10 + n % 10);
    }
}

/// Rendered segments are ASCII and start with `.` or `[` when there are any.
proof fn lemma_segs_text_shape(s: Seq<SegSpec>)
    requires
        renderable(s),
    ensures
        ascii_text(segs_text(s)),
        s.len() > 0 ==> segs_text(s).len() > 0 && (segs_text(s)[0] == '.' || segs_text(s)[0] == '['),
    decreases s.len(),
{
    reveal_strlit(".");
    reveal_strlit("[");
    reveal_strlit("]");
    if s.len() > 0 {
        let r = s.drop_first();
        assert forall|k: int| 0 <= k < r.len() implies match #[trigger] r[k] {
            SegSpec::Member(m) => m.len() > 0 && forall|j: int| 0 <= j < m.len() ==> member_name_char(#[trigger] m[j]),
            SegSpec::Index(i) => i <= usize::MAX,
        } by {
            assert(r[k] == s[k + 1]);
        }
        lemma_segs_text_shape(r);
        let g = s[0];
        assert(match s[0] {
            SegSpec::Member(m) => m.len() > 0 && forall|j: int| 0 <= j < m.len() ==> member_name_char(#[trigger] m[j]),
            SegSpec::Index(i) => i <= usize::MAX,
        });
        if let SegSpec::Index(i) = g {
            lemma_decimal_bytes(i);
        }
        let t = seg_text(g) + segs_text(r);
        assert forall|k: int| 0 <= k < t.len() implies (#[trigger] t[k] as u32) < 128 by {
            if k >= seg_text(g).len() {
                assert(t[k] == segs_text(r)[k - seg_text(g).len()]);
            } else {
                match g {
                    SegSpec::Member(m) => {
                        if k > 0 {
                            assert(t[k] == m[k - 1]);
                        }
                    },
                    SegSpec::Index(i) => {
                        let d = crate::jcs::decimal(i);
                        if 0 < k <= d.len() {
                            assert(t[k] == d[k - 1]);
                        }
                    },
                }
            }
        }
    }
}

proof fn lemma_ascii_char_byte(c: char)
    requires
        (c as u32) < 128,
    ensures
        ((c as u32) as u8) as char == c,
{
}

/// Rendered segments parse back to themselves.
proof fn lemma_parse_rendered(s: Seq<SegSpec>)
    requires
        renderable(s),
    ensures
        parse_from(text_bytes(segs_text(s)), 0) == Some(s),
    decreases s.len(),
{
    reveal_strlit(".");
    reveal_strlit("[");
    reveal_strlit("]");
    if s.len() == 0 {
        assert(text_bytes(segs_text(s)).len() == 0);
        assert(s =~= Seq::<SegSpec>::empty());
    } else {
        let r = s.drop_first();
        assert forall|k: int| 0 <= k < r.len() implies match #[trigger] r[k] {
            SegSpec::Member(m) => m.len() > 0 && forall|j: int| 0 <= j < m.len() ==> member_name_char(#[trigger] m[j]),
            SegSpec::Index(i) => i <= usize::MAX,
        } by {
            assert(r[k] == s[k + 1]);
        }
        lemma_parse_rendered(r);
        lemma_segs_text_shape(r);
        let g = s[0];
        assert(match s[0] {
            SegSpec::Member(m) => m.len() > 0 && forall|j: int| 0 <= j < m.len() ==> member_name_char(#[trigger] m[j]),
            SegSpec::Index(i) => i <= usize::MAX,
        });
        let x = text_bytes(seg_text(g));
        let e = text_bytes(segs_text(r));
        let b = text_bytes(segs_text(s));
        assert(b =~= x + e);
        assert(e.len() > 0 ==> e[0] == 46u8 || e[0] == 91u8) by {
            if e.len() > 0 {
                assert(e[0] == (segs_text(r)[0] as u32) as u8);
            }
        }
        lemma_parse_from_shift(x, e, 0);
        match g {
            SegSpec::Member(m) => {
                let n = m.len() as int;
                assert(x.len() == n + 1);
                assert(b[0] == 46u8);
                assert forall|k: int| 1 <= k < 1 + n implies is_member_byte(#[trigger] b[k]) by {
                    assert(b[k] == x[k]);
                    assert(seg_text(g)[k] == m[k - 1]);
                    assert(member_name_char(m[k - 1]));
                }
                if 1 + n < b.len() {
                    assert(b[1 + n] == e[0]);
                }
                lemma_member_run_exact(b, 1, n);
                assert forall|k: int| 0 <= k < n implies #[trigger] ascii_chars(b.subrange(1, 1 + n))[k] == m[k] by {
                    assert(b[1 + k] == x[1 + k]);
                    assert(seg_text(g)[1 + k] == m[k]);
                    assert(member_name_char(m[k]));
                    assert(x[1 + k] == (m[k] as u32) as u8);
                    assert(b.subrange(1, 1 + n)[k] == b[1 + k]);
                    lemma_ascii_char_byte(m[k]);
                }
                assert(ascii_chars(b.subrange(1, 1 + n)) =~= m);
                assert(s =~= seq![SegSpec::Member(m)] + r);
            },
            SegSpec::Index(i) => {
                lemma_decimal_bytes(i);
                let d = crate::jcs::decimal(i);
                let n = d.len() as int;
                assert(x.len() == n + 2);
                assert(b[0] == 91u8);
                assert forall|k: int| 1 <= k < 1 + n implies is_digit_byte(#[trigger] b[k]) by {
                    assert(b[k] == x[k]);
                    assert(seg_text(g)[k] == d[k - 1]);
                    assert(text_bytes(d)[k - 1] == x[k]);
                }
                assert(b[1] != 34u8);
                assert(b[1 + n] == 93u8);
                lemma_digit_run_exact(b, 1, n);
                assert(b.subrange(1, 1 + n) =~= text_bytes(d));
                assert(s =~= seq![SegSpec::Index(i)] + r);
            },
        }
    }
}

/// Segments written out in dot and index notation after `$target` parse
/// back to the same segments.
pub proof fn law_render_then_parse(s: Seq<SegSpec>)
    requires
        renderable(s),
    ensures
        spec_parse("$target"@ + segs_text(s)) == Ok::<Seq<SegSpec>, HostError>(s),
{
    reveal_strlit("$target");
    let t = target_root();
    lemma_ascii_bytes("$target"@, t);
    lemma_segs_text_shape(s);
    lemma_text_bytes_encode(segs_text(s));
    lemma_encode_utf8_append("$target"@, segs_text(s));
    let e = text_bytes(segs_text(s));
    let b = t + e;
    assert(b.subrange(0, 7) =~= t);
    assert(root_len(b) == 7);
    lemma_parse_from_shift(t, e, 0);
    lemma_parse_rendered(s);
}

// ---- resolve / apply --------------------------------------------------------

/// One step down from `cur`.
pub open spec fn step(cur: JView, seg: SegSpec) -> Option<JView> {
    match (cur, seg) {
        (JView::Object(es), SegSpec::Member(k)) => map_get(es, k),
        (JView::Array(a), SegSpec::Index(i)) => if i < a.len() {
            Some(a[i as int])
        } else {
            None
        },
        _ => None,
    }
}

/// The value at `segs` within `t`.
pub open spec fn resolve_segs(t: JView, segs: Seq<SegSpec>) -> Option<JView>
    decreases segs.len(),
{
    if segs.len() == 0 {
        Some(t)
    } else {
        match step(t, segs[0]) {
            Some(c) => resolve_segs(c, segs.drop_first()),
            None => None,
        }
    }
}

/// `t` with its child at `seg` replaced by `v`.
pub open spec fn set_child(t: JView, seg: SegSpec, v: JView) -> JView {
    match (t, seg) {
        (JView::Object(es), SegSpec::Member(k)) => JView::Object(map_insert(es, k, v)),
        (JView::Array(a), SegSpec::Index(i)) => JView::Array(a.update(i as int, v)),
        _ => t,
    }
}

/// `t` with the value at `segs` replaced by `v`; `None` when the path does
/// not resolve.
pub open spec fn apply_segs(t: JView, segs: Seq<SegSpec>, v: JView) -> Option<JView>
    decreases segs.len(),
{
    if segs.len() == 0 {
        Some(v)
    } else {
        match step(t, segs[0]) {
            Some(c) => match apply_segs(c, segs.drop_first(), v) {
                Some(nc) => Some(set_child(t, segs[0], nc)),
                None => None,
            },
            None => None,
        }
    }
}

/// Resolving `path` within `t`.
pub open spec fn spec_resolve(t: JView, path: Seq<char>) -> Result<JView, HostError> {
    match spec_parse(path) {
        Ok(s) => match resolve_segs(t, s) {
            Some(x) => Ok(x),
            None => Err(HostError::TransformInvalid),
        },
        Err(e) => Err(e),
    }
}

/// Applying `value` at `path` within `t`.
pub open spec fn spec_apply(t: JView, path: Seq<char>, value: JView) -> Result<JView, HostError> {
    match spec_parse(path) {
        Ok(s) => match apply_segs(t, s, value) {
            Some(x) => Ok(x),
            None => Err(HostError::TransformInvalid),
        },
        Err(e) => Err(e),
    }
}

// ---- lemmas -----------------------------------------------------------------

/// A member run stays within the bytes.
pub proof fn lemma_member_run_bound(b: Seq<u8>, i: int)
    requires
        0 <= i <= b.len(),
    ensures
        i + member_run(b, i) <= b.len(),
    decreases b.len() - i,
{
    if i < b.len() && is_member_byte(b[i]) {
        lemma_member_run_bound(b, i + 1);
    }
}

/// A digit run stays within the bytes.
pub proof fn lemma_digit_run_bound(b: Seq<u8>, i: int)
    requires
        0 <= i <= b.len(),
    ensures
        i + digit_run(b, i) <= b.len(),
    decreases b.len() - i,
{
    if i < b.len() && is_digit_byte(b[i]) {
        lemma_digit_run_bound(b, i + 1);
    }
}

/// A member run ends at the first non-member byte.
proof fn lemma_member_run(b: Seq<u8>, start: int, i: int)
    requires
        0 <= start <= i <= b.len(),
        forall|k: int| start <= k < i ==> is_member_byte(#[trigger] b[k]),
        i == b.len() || !is_member_byte(b[i]),
    ensures
        member_run(b, start) == i - start,
    decreases i - start,
{
    if start < i {
        lemma_member_run(b, start + 1, i);
    }
}

/// A digit run ends at the first non-digit byte.
proof fn lemma_digit_run(b: Seq<u8>, start: int, i: int)
    requires
        0 <= start <= i <= b.len(),
        forall|k: int| start <= k < i ==> is_digit_byte(#[trigger] b[k]),
        i == b.len() || !is_digit_byte(b[i]),
    ensures
        digit_run(b, start) == i - start,
    decreases i - start,
{
    if start < i {
        lemma_digit_run(b, start + 1, i);
    }
}

/// Digit values never decrease as digits are added.
proof fn lemma_digits_value_mono(d: Seq<u8>, k: int)
    requires
        0 <= k <= d.len(),
    ensures
        digits_value(d.take(k)) <= digits_value(d),
    decreases d.len() - k,
{
    if k < d.len() {
        lemma_digits_value_mono(d, k + 1);
        assert(d.take(k + 1).drop_last() =~= d.take(k));
    } else {
        assert(d.take(k) =~= d);
    }
}

/// Applying where the path resolves succeeds, and reading the path back
/// gives the written value.
pub proof fn lemma_apply_resolve(t: JView, segs: Seq<SegSpec>, v: JView)
    ensures
        apply_segs(t, segs, v) is Some <==> resolve_segs(t, segs) is Some,
        apply_segs(t, segs, v) matches Some(t2) ==> resolve_segs(t2, segs) == Some(v),
    decreases segs.len(),
{
    if segs.len() > 0 {
        match step(t, segs[0]) {
            Some(c) => {
                lemma_apply_resolve(c, segs.drop_first(), v);
                if let Some(nc) = apply_segs(c, segs.drop_first(), v) {
                    let t2 = set_child(t, segs[0], nc);
                    match (t, segs[0]) {
                        (JView::Object(es), SegSpec::Member(k)) => {
                            lemma_map_insert(es, k, nc, k);
                        },
                        _ => {},
                    }
                    assert(step(t2, segs[0]) == Some(nc));
                }
            },
            None => {},
        }
    }
}

// ---- executable -------------------------------------------------------------

/// Whether `b` is allowed in a member name.
fn is_member_char(b: u8) -> (r: bool)
    ensures
        r == is_member_byte(b),
{
    (b >= 48 && b <= 57) || (b >= 65 && b <= 90) || (b >= 97 && b <= 122) || b == 95 || b == 45
}

/// Whether `bytes` starts with `prefix`.
fn bytes_start_with(bytes: &[u8], prefix: &[u8]) -> (r: bool)
    ensures
        r == bytes_prefix(bytes@, prefix@),
{
    if prefix.len() > bytes.len() {
        return false;
    }
    let n = prefix.len();
    for i in 0..n
        invariant
            n == prefix@.len(),
            n <= bytes@.len(),
            forall|j: int| 0 <= j < i ==> bytes@[j] == prefix@[j],
    {
        if bytes[i] != prefix[i] {
            assert(bytes@.subrange(0, n as int)[i as int] != prefix@[i as int]);
            return false;
        }
    }
    assert(bytes@.subrange(0, n as int) =~= prefix@);
    true
}

/// A string of the ASCII bytes `b[start..end]`.
fn ascii_string(b: &[u8], start: usize, end: usize) -> (r: String)
    requires
        start <= end <= b@.len(),
    ensures
        r@ == ascii_chars(b@.subrange(start as int, end as int)),
{
    let mut r = String::new();
    let mut i = start;
    while i < end
        invariant
            start <= i <= end,
            end <= b@.len(),
            r@ == ascii_chars(b@.subrange(start as int, i as int)),
        decreases end - i,
    {
        crate::text::push_char(&mut r, b[i] as char);
        i = i + 1;
        assert(r@ =~= ascii_chars(b@.subrange(start as int, i as int)));
    }
    r
}

/// Parse a path into segments.
///
/// `TransformTargetForbidden` when the path is not rooted at `$target` (or
/// `$policy_target`), `TransformInvalid` on any other parse failure.
#[verifier::loop_isolation(false)]
#[verifier::rlimit(40)]
#[verifier::spinoff_prover]
pub fn parse(path: &str) -> (r: Result<Vec<Segment>, HostError>)
    ensures
        match r {
            Ok(segs) => spec_parse(path@) == Ok::<Seq<SegSpec>, HostError>(segs_view(segs@)),
            Err(e) => spec_parse(path@) == Err::<Seq<SegSpec>, HostError>(e),
        },
{
    let bytes = path.as_bytes();
    let ghost b = bytes@;
    let target: [u8; 7] = [36u8, 116u8, 97u8, 114u8, 103u8, 101u8, 116u8];
    let policy: [u8; 14] = [36u8, 112u8, 111u8, 108u8, 105u8, 99u8, 121u8, 95u8, 116u8, 97u8, 114u8, 103u8, 101u8, 116u8];
    assert(target@ =~= target_root());
    assert(policy@ =~= policy_target_root());
    let mut i: usize = if bytes_start_with(bytes, target.as_slice()) {
        7
    } else if bytes_start_with(bytes, policy.as_slice()) {
        14
    } else {
        return Err(HostError::TransformTargetForbidden);
    };
    let ghost root = i as int;
    let mut segs: Vec<Segment> = Vec::new();
    assert(segs_view(segs@) =~= Seq::<SegSpec>::empty());
    while i < bytes.len()
        invariant
            b == bytes@,
            root == root_len(b),
            root <= i <= b.len(),
            parse_from(b, root) == (match parse_from(b, i as int) {
                Some(rest) => Some(segs_view(segs@) + rest),
                None => None::<Seq<SegSpec>>,
            }),
        decreases b.len() - i,
    {
        let ghost i0 = i as int;
        let ghost before = segs_view(segs@);
        assert(parse_from(b, root) == (match parse_from(b, i0) {
            Some(rest) => Some(before + rest),
            None => None::<Seq<SegSpec>>,
        }));
        let ghost seg: SegSpec;
        if bytes[i] == 46 {
            i = i + 1;
            let start = i;
            while i < bytes.len() && is_member_char(bytes[i])
                invariant
                    start <= i <= b.len(),
                    b == bytes@,
                    forall|k: int| start <= k < i ==> is_member_byte(#[trigger] b[k]),
                decreases b.len() - i,
            {
                i = i + 1;
            }
            proof {
                lemma_member_run(b, start as int, i as int);
            }
            if i == start {
                assert(parse_from(b, i0) is None);
                return Err(HostError::TransformInvalid);
            }
            let m = ascii_string(bytes, start, i);
            proof {
                seg = SegSpec::Member(m@);
            }
            segs.push(Segment::Member(m));
        } else if bytes[i] == 91 {
            i = i + 1;
            if i < bytes.len() && bytes[i] == 34 {
                i = i + 1;
                let start = i;
                while i < bytes.len() && bytes[i] != 34
                    invariant
                        start <= i <= b.len(),
                        b == bytes@,
                        forall|k: int| start <= k < i ==> is_member_byte(#[trigger] b[k]),
                    decreases b.len() - i,
                {
                    if !is_member_char(bytes[i]) {
                        proof {
                            lemma_member_run(b, start as int, i as int);
                        }
                        assert(parse_from(b, i0) is None);
                        return Err(HostError::TransformInvalid);
                    }
                    i = i + 1;
                }
                proof {
                    lemma_member_run(b, start as int, i as int);
                }
                if i >= bytes.len() || i + 1 >= bytes.len() || bytes[i] != 34 || bytes[i + 1] != 93 {
                    assert(parse_from(b, i0) is None);
                    return Err(HostError::TransformInvalid);
                }
                let m = ascii_string(bytes, start, i);
                proof {
                    seg = SegSpec::Member(m@);
                }
                segs.push(Segment::Member(m));
                i = i + 2;
            } else {
                let start = i;
                let mut value: usize = 0;
                let mut overflow = false;
                while i < bytes.len() && bytes[i] >= 48 && bytes[i] <= 57
                    invariant
                        start <= i <= b.len(),
                        b == bytes@,
                        forall|k: int| start <= k < i ==> is_digit_byte(#[trigger] b[k]),
                        !overflow ==> value as nat == digits_value(b.subrange(start as int, i as int)),
                        overflow ==> digits_value(b.subrange(start as int, i as int)) > usize::MAX,
                    decreases b.len() - i,
                {
                    let d = (bytes[i] - 48) as usize;
                    proof {
                        assert(b.subrange(start as int, i + 1).drop_last() =~= b.subrange(start as int, i as int));
                        if overflow {
                            lemma_digits_value_mono(b.subrange(start as int, i + 1), i - start);
                            assert(b.subrange(start as int, i + 1).take(i - start) =~= b.subrange(start as int, i as int));
                        }
                    }
                    if !overflow {
                        if value > (usize::MAX - d) / 10 {
                            overflow = true;
                        } else {
                            value = value * 10 + d;
                        }
                    }
                    i = i + 1;
                }
                proof {
                    lemma_digit_run(b, start as int, i as int);
                }
                if i == start || i >= bytes.len() || bytes[i] != 93 || overflow {
                    assert(parse_from(b, i0) is None);
                    return Err(HostError::TransformInvalid);
                }
                proof {
                    seg = SegSpec::Index(value as nat);
                }
                segs.push(Segment::Index(value));
                i = i + 1;
            }
        } else {
            assert(parse_from(b, i0) is None);
            return Err(HostError::TransformInvalid);
        }
        proof {
            assert(segs_view(segs@) =~= before.push(seg));
            assert(parse_from(b, i0) == (match parse_from(b, i as int) {
                Some(rest) => Some(seq![seg] + rest),
                None => None::<Seq<SegSpec>>,
            }));
            match parse_from(b, i as int) {
                Some(rest) => {
                    assert(before + (seq![seg] + rest) =~= segs_view(segs@) + rest);
                },
                None => {},
            }
        }
    }
    assert(segs_view(segs@) + Seq::<SegSpec>::empty() =~= segs_view(segs@));
    Ok(segs)
}

/// One step down from `cur` along `seg`.
fn step_ref<'a>(cur: &'a JsonValue, seg: &Segment) -> (r: Option<&'a JsonValue>)
    ensures
        match r {
            Some(x) => step(cur@, seg@) == Some(x@),
            None => step(cur@, seg@) is None,
        },
{
    match (cur, seg) {
        (JsonValue::Object(m), Segment::Member(k)) => {
            assert(cur@ == JView::Object(m@));
            m.get(k.as_str())
        },
        (JsonValue::Array(a), Segment::Index(i)) => {
            assert(cur@ == JView::Array(jv_seq(a@)));
            if *i < a.len() {
                Some(&a[*i])
            } else {
                None
            }
        },
        _ => None,
    }
}

/// Return the value at `path` within `target`.
#[verifier::loop_isolation(false)]
pub fn resolve<'a>(target: &'a JsonValue, path: &str) -> (r: Result<&'a JsonValue, HostError>)
    ensures
        match r {
            Ok(x) => spec_resolve(target@, path@) == Ok::<JView, HostError>(x@),
            Err(e) => spec_resolve(target@, path@) == Err::<JView, HostError>(e),
        },
{
    let segs = parse(path)?;
    let ghost s = segs_view(segs@);
    let mut cur = target;
    let n = segs.len();
    assert(s.skip(0) =~= s);
    for i in 0..n
        invariant
            n == segs@.len(),
            s == segs_view(segs@),
            resolve_segs(target@, s) == resolve_segs(cur@, s.skip(i as int)),
    {
        proof {
            assert(s.skip(i as int).drop_first() =~= s.skip(i + 1));
        }
        match step_ref(cur, &segs[i]) {
            Some(x) => {
                cur = x;
            },
            None => {
                return Err(HostError::TransformInvalid);
            },
        }
    }
    assert(s.skip(n as int) =~= Seq::<SegSpec>::empty());
    Ok(cur)
}

/// Replace the value at `segs[i..]` within `t` by `v`.
fn apply_from(t: JsonValue, segs: &Vec<Segment>, i: usize, v: JsonValue) -> (r: Result<JsonValue, HostError>)
    requires
        i <= segs@.len(),
    ensures
        match r {
            Ok(x) => apply_segs(t@, segs_view(segs@).skip(i as int), v@) == Some(x@),
            Err(e) => apply_segs(t@, segs_view(segs@).skip(i as int), v@) is None && e == HostError::TransformInvalid,
        },
    decreases segs@.len() - i,
{
    let ghost s = segs_view(segs@).skip(i as int);
    if i == segs.len() {
        return Ok(v);
    }
    proof {
        assert(s[0] == segs@[i as int]@);
        assert(s.drop_first() =~= segs_view(segs@).skip(i + 1));
    }
    match (t, &segs[i]) {
        (JsonValue::Object(mut m), Segment::Member(k)) => match m.find(k.as_str()) {
            None => Err(HostError::TransformInvalid),
            Some(idx) => {
                let ghost es = m@;
                proof {
                    crate::json::lemma_first_index(es, k@);
                    assert(m@[idx as int] == (m.entries@[idx as int].0@, m.entries@[idx as int].1@));
                }
                let key = m.entries[idx].0.clone();
                let child = m.entries[idx].1.clone();
                let nc = apply_from(child, segs, i + 1, v)?;
                let ghost ncv = nc@;
                m.entries.set(idx, (key, nc));
                assert(m@ =~= map_insert(es, k@, ncv));
                Ok(JsonValue::Object(m))
            },
        },
        (JsonValue::Array(mut a), Segment::Index(j)) => {
            if *j < a.len() {
                let ghost av = jv_seq(a@);
                let child = a[*j].clone();
                let nc = apply_from(child, segs, i + 1, v)?;
                let ghost ncv = nc@;
                a.set(*j, nc);
                assert(jv_seq(a@) =~= av.update(*j as int, ncv));
                Ok(JsonValue::Array(a))
            } else {
                Err(HostError::TransformInvalid)
            }
        },
        _ => Err(HostError::TransformInvalid),
    }
}

/// Return `target` with the value at `path` replaced by `value`. When `path`
/// is the bare root, `value` itself is returned.
pub fn apply(target: JsonValue, path: &str, value: JsonValue) -> (r: Result<JsonValue, HostError>)
    ensures
        match r {
            Ok(x) => spec_apply(target@, path@, value@) == Ok::<JView, HostError>(x@),
            Err(e) => spec_apply(target@, path@, value@) == Err::<JView, HostError>(e),
        },
{
    let segs = parse(path)?;
    proof {
        assert(segs_view(segs@).skip(0) =~= segs_view(segs@));
    }
    apply_from(target, &segs, 0, value)
}

/// Writing a value at a path and reading the path back gives the value; the
/// write succeeds exactly where the path resolves.
pub proof fn law_apply_then_resolve(target: JView, path: Seq<char>, value: JView)
    ensures
        spec_apply(target, path, value) is Ok <==> spec_resolve(target, path) is Ok,
        spec_apply(target, path, value) matches Ok(t2) ==> spec_resolve(t2, path) == Ok::<JView, HostError>(value),
{
    if let Ok(s) = spec_parse(path) {
        lemma_apply_resolve(target, s, value);
    }
}

/// Two segment paths part ways: at their first difference both still have
/// a segment, so neither is a prefix of the other.
pub open spec fn diverges(s: Seq<SegSpec>, q: Seq<SegSpec>) -> bool
    decreases s.len(),
{
    s.len() > 0 && q.len() > 0 && (s[0] != q[0] || diverges(s.drop_first(), q.drop_first()))
}

/// Replacing the child at `g` leaves the child at any other segment as it was.
proof fn lemma_step_set_child(t: JView, g: SegSpec, h: SegSpec, x: JView)
    requires
        step(t, g) is Some,
    ensures
        step(set_child(t, g, x), g) == Some(x),
        h != g ==> step(set_child(t, g, x), h) == step(t, h),
{
    match (t, g) {
        (JView::Object(es), SegSpec::Member(k)) => {
            lemma_map_insert(es, k, x, k);
            if let SegSpec::Member(k2) = h {
                lemma_map_insert(es, k, x, k2);
            }
        },
        (JView::Array(a), SegSpec::Index(i)) => {},
        _ => {},
    }
}

proof fn lemma_apply_frame(t: JView, s: Seq<SegSpec>, q: Seq<SegSpec>, v: JView)
    requires
        apply_segs(t, s, v) is Some,
        diverges(s, q),
    ensures
        resolve_segs(apply_segs(t, s, v)->Some_0, q) == resolve_segs(t, q),
    decreases s.len(),
{
    let c = step(t, s[0])->Some_0;
    let nc = apply_segs(c, s.drop_first(), v)->Some_0;
    let t2 = set_child(t, s[0], nc);
    lemma_step_set_child(t, s[0], q[0], nc);
    if s[0] == q[0] {
        lemma_apply_frame(c, s.drop_first(), q.drop_first(), v);
    }
}

/// Writing at one path leaves every path that neither extends nor
/// prefixes it reading as before.
pub proof fn law_apply_frame(target: JView, path: Seq<char>, value: JView, other: Seq<char>)
    requires
        spec_apply(target, path, value) is Ok,
        spec_parse(path) is Ok,
        spec_parse(other) is Ok,
        diverges(spec_parse(path)->Ok_0, spec_parse(other)->Ok_0),
    ensures
        spec_resolve(spec_apply(target, path, value)->Ok_0, other) == spec_resolve(target, other),
{
    lemma_apply_frame(target, spec_parse(path)->Ok_0, spec_parse(other)->Ok_0, value);
}

} // verus!
