//! The conformance engine: scripted interceptor and resolver evaluation,
//! dotted-path lookup, and the assertion pass over a harness run.
//!
//! A binding's runner registers an interceptor that answers with
//! [`scripted_intercept`] and a resolver that answers with
//! [`scripted_resolve`], runs the harness, and hands the recorded contexts
//! and the harness's run record to [`assert_vector`].
use vstd::prelude::*;
use crate::json::{
    group_json_view, map_get, member, view_str, Entries, JNum, JView, JsonMap, JsonNumber,
    JsonValue,
};
use crate::text::{chars_of, push_char, push_str, str_eq, to_owned};

verus! {

broadcast use group_json_view;

// ---- JSON equality ----------------------------------------------------------------------

/// Equality of JSON values: objects compare by their members regardless
/// of order, arrays and scalars structurally.
pub open spec fn json_eq(a: JView, b: JView) -> bool
    decreases a,
{
    match a {
        JView::Array(x) => match b {
            JView::Array(y) => items_eq(x, y),
            _ => false,
        },
        JView::Object(x) => match b {
            JView::Object(y) => x.len() == y.len() && entries_in(x, y),
            _ => false,
        },
        _ => a == b,
    }
}

/// Pairwise equality of items.
pub open spec fn items_eq(x: Seq<JView>, y: Seq<JView>) -> bool
    decreases x,
{
    if x.len() == 0 {
        y.len() == 0
    } else {
        proof {
            assert(decreases_to!(x => x[0]));
            assert(decreases_to!(x => x.subrange(1, x.len() as int)));
        }
        y.len() > 0 && json_eq(x[0], y[0]) && items_eq(x.subrange(1, x.len() as int), y.subrange(1, y.len() as int))
    }
}

/// Every member of `x` is in `y` with an equal value.
pub open spec fn entries_in(x: Entries, y: Entries) -> bool
    decreases x,
{
    if x.len() == 0 {
        true
    } else {
        proof {
            assert(decreases_to!(x => x[0]));
            assert(decreases_to!(x => x.subrange(1, x.len() as int)));
        }
        (match map_get(y, x[0].0) {
            Some(v) => json_eq(x[0].1, v),
            None => false,
        }) && entries_in(x.subrange(1, x.len() as int), y)
    }
}

/// Whether two JSON values are equal (objects regardless of member order).
pub fn values_equal(a: &JsonValue, b: &JsonValue) -> (r: bool)
    ensures
        r == json_eq(a@, b@),
    decreases a,
{
    match a {
        JsonValue::Array(x) => match b {
            JsonValue::Array(y) => {
                let ghost xs = crate::json::jv_seq(x@);
                let ghost ys = crate::json::jv_seq(y@);
                if x.len() != y.len() {
                    proof {
                        lemma_items_eq_len(xs, ys);
                    }
                    return false;
                }
                let n = x.len();
                assert(xs.skip(0) =~= xs);
                assert(ys.skip(0) =~= ys);
                for i in 0..n
                    invariant
                        n == x@.len(),
                        n == y@.len(),
                        xs == crate::json::jv_seq(x@),
                        ys == crate::json::jv_seq(y@),
                        *a == JsonValue::Array(*x),
                        a@ == JView::Array(xs),
                        b@ == JView::Array(ys),
                        items_eq(xs, ys) == items_eq(xs.skip(i as int), ys.skip(i as int)),
                {
                    proof {
                        assert(decreases_to!(*a => (*a)->Array_0));
                        assert(decreases_to!(*x => x[i as int]));
                        assert(xs.skip(i as int).subrange(1, xs.skip(i as int).len() as int) =~= xs.skip(i + 1));
                        assert(ys.skip(i as int).subrange(1, ys.skip(i as int).len() as int) =~= ys.skip(i + 1));
                        assert(xs.skip(i as int)[0] == x@[i as int]@);
                        assert(ys.skip(i as int)[0] == y@[i as int]@);
                    }
                    if !values_equal(&x[i], &y[i]) {
                        return false;
                    }
                }
                assert(xs.skip(n as int) =~= Seq::<JView>::empty());
                assert(ys.skip(n as int) =~= Seq::<JView>::empty());
                true
            },
            _ => false,
        },
        JsonValue::Object(x) => match b {
            JsonValue::Object(y) => {
                if x.entries.len() != y.entries.len() {
                    assert(x@.len() != y@.len());
                    return false;
                }
                let ghost xs = x@;
                let n = x.entries.len();
                assert(xs.skip(0) =~= xs);
                for i in 0..n
                    invariant
                        n == x.entries@.len(),
                        xs == x@,
                        *a == JsonValue::Object(*x),
                        a@ == JView::Object(xs),
                        b@ == JView::Object(y@),
                        xs.len() == y@.len(),
                        entries_in(xs, y@) == entries_in(xs.skip(i as int), y@),
                {
                    proof {
                        assert(decreases_to!(*a => (*a)->Object_0));
                        assert(decreases_to!(*x => x.entries));
                        assert(decreases_to!(x.entries => x.entries[i as int]));
                        assert(decreases_to!(x.entries[i as int] => x.entries[i as int].1));
                        assert(xs.skip(i as int).subrange(1, xs.skip(i as int).len() as int) =~= xs.skip(i + 1));
                        assert(xs.skip(i as int)[0] == (x.entries@[i as int].0@, x.entries@[i as int].1@));
                    }
                    match y.get(x.entries[i].0.as_str()) {
                        Some(w) => {
                            if !values_equal(&x.entries[i].1, w) {
                                return false;
                            }
                        },
                        None => {
                            return false;
                        },
                    }
                }
                assert(xs.skip(n as int) =~= Seq::<(Seq<char>, JView)>::empty());
                true
            },
            _ => false,
        },
        _ => scalar_equal(a, b),
    }
}

proof fn lemma_items_eq_len(x: Seq<JView>, y: Seq<JView>)
    ensures
        items_eq(x, y) ==> x.len() == y.len(),
    decreases x.len(),
{
    if x.len() > 0 && y.len() > 0 {
        lemma_items_eq_len(x.subrange(1, x.len() as int), y.subrange(1, y.len() as int));
    }
}

fn scalar_equal(a: &JsonValue, b: &JsonValue) -> (r: bool)
    requires
        !(a@ is Array),
        !(a@ is Object),
    ensures
        r == (a@ == b@),
{
    match (a, b) {
        (JsonValue::Null, JsonValue::Null) => true,
        (JsonValue::Bool(x), JsonValue::Bool(y)) => *x == *y,
        (JsonValue::String(x), JsonValue::String(y)) => str_eq(x.as_str(), y.as_str()),
        (JsonValue::Number(x), JsonValue::Number(y)) => match (x, y) {
            (JsonNumber::PosInt(p), JsonNumber::PosInt(q)) => *p == *q,
            (JsonNumber::NegInt(p), JsonNumber::NegInt(q)) => *p == *q,
            (JsonNumber::Float(p), JsonNumber::Float(q)) => str_eq(p.as_str(), q.as_str()),
            _ => false,
        },
        _ => false,
    }
}


// ---- dotted-path lookup -----------------------------------------------------------------

/// Index of the first `c` at or after `k`.
pub open spec fn find_char(d: Seq<char>, c: char, k: int) -> Option<int>
    decreases d.len() - k,
{
    if k < 0 || k >= d.len() {
        None
    } else if d[k] == c {
        Some(k)
    } else {
        find_char(d, c, k + 1)
    }
}

/// The value of decimal digits.
pub open spec fn decimal_value(s: Seq<char>) -> nat
    decreases s.len(),
{
    if s.len() == 0 {
        0
    } else {
        decimal_value(s.drop_last()) * 10 + ((s.last() as u32) - 48) as nat
    }
}

/// All decimal digits.
pub open spec fn all_digits(s: Seq<char>) -> bool {
    forall|i: int| 0 <= i < s.len() ==> '0' <= #[trigger] s[i] && s[i] <= '9'
}

/// An unsigned index as `usize` parsing reads it: an optional `+`, then
/// one or more digits, within `usize`.
pub open spec fn parse_index(s: Seq<char>) -> Option<usize> {
    let digits = if s.len() > 0 && s[0] == '+' {
        s.drop_first()
    } else {
        s
    };
    if digits.len() > 0 && all_digits(digits) && decimal_value(digits) <= usize::MAX {
        Some(decimal_value(digits) as usize)
    } else {
        None
    }
}

/// Item `i` of an array.
pub open spec fn item(v: JView, i: usize) -> Option<JView> {
    match v {
        JView::Array(items) => if i < items.len() {
            Some(items[i as int])
        } else {
            None
        },
        _ => None,
    }
}

/// Member `key` of an object, when `key` is non-empty; `cur` itself for an
/// empty token.
pub open spec fn step_token(cur: JView, d: Seq<char>, start: int, end: int) -> Option<JView> {
    if end > start {
        member(cur, d.subrange(start, end))
    } else {
        Some(cur)
    }
}

/// Lookup of the rest of a dotted/bracket path from character `i`, the
/// current token starting at `start`.
pub open spec fn lookup_from(cur: JView, d: Seq<char>, i: int, start: int) -> Option<JView>
    decreases d.len() + 1 - i,
{
    if i < 0 || i > d.len() {
        Some(cur)
    } else {
        let ch = if i < d.len() {
            d[i]
        } else {
            '.'
        };
        if ch == '.' {
            match step_token(cur, d, start, i) {
                Some(c) => lookup_from(c, d, i + 1, i + 1),
                None => None,
            }
        } else if ch == '[' {
            match step_token(cur, d, start, i) {
                Some(c) => match find_char(d, ']', i) {
                    Some(j) => {
                        proof {
                            lemma_find_char(d, ']', i);
                        }
                        match parse_index(d.subrange(i + 1, j)) {
                            Some(idx) => match item(c, idx) {
                                Some(c2) => lookup_from(c2, d, j + 1, j + 1),
                                None => None,
                            },
                            None => None,
                        }
                    },
                    None => None,
                },
                None => None,
            }
        } else {
            lookup_from(cur, d, i + 1, start)
        }
    }
}

/// Resolve a dotted/bracket path (`a.b[0].c`) against `root`.
pub open spec fn spec_lookup(root: JView, dotted: Seq<char>) -> Option<JView> {
    lookup_from(root, dotted, 0, 0)
}

pub proof fn lemma_find_char(d: Seq<char>, c: char, k: int)
    ensures
        find_char(d, c, k) matches Some(j) ==> k <= j < d.len() && d[j] == c && 0 <= k,
        0 <= k && find_char(d, c, k) is None ==> forall|j: int| k <= j < d.len() ==> d[j] != c,
    decreases d.len() - k,
{
    if 0 <= k < d.len() && d[k] != c {
        lemma_find_char(d, c, k + 1);
    }
}

fn find_close(d: &Vec<char>, i: usize) -> (r: Option<usize>)
    ensures
        match find_char(d@, ']', i as int) {
            Some(j) => r == Some(j as usize),
            None => r is None,
        },
{
    let mut k = i;
    proof {
        lemma_find_char(d@, ']', i as int);
    }
    while k < d.len()
        invariant
            i <= k,
            find_char(d@, ']', i as int) == find_char(d@, ']', k as int),
        decreases d@.len() - k,
    {
        if d[k] == ']' {
            return Some(k);
        }
        k = k + 1;
    }
    None
}

fn parse_index_exec(d: &Vec<char>, from: usize, to: usize) -> (r: Option<usize>)
    requires
        from <= to <= d@.len(),
    ensures
        r == parse_index(d@.subrange(from as int, to as int)),
{
    let ghost s = d@.subrange(from as int, to as int);
    let mut k = from;
    if k < to && d[k] == '+' {
        k = k + 1;
    }
    let ghost digits = d@.subrange(k as int, to as int);
    assert(digits =~= (if s.len() > 0 && s[0] == '+' { s.drop_first() } else { s }));
    if k >= to {
        return None;
    }
    let mut value: usize = 0;
    let start = k;
    while k < to
        invariant
            s == d@.subrange(from as int, to as int),
            digits == (if s.len() > 0 && s[0] == '+' { s.drop_first() } else { s }),
            digits.len() > 0,
            start <= k <= to,
            to <= d@.len(),
            digits == d@.subrange(start as int, to as int),
            all_digits(d@.subrange(start as int, k as int)),
            value == decimal_value(d@.subrange(start as int, k as int)),
        decreases to - k,
    {
        let c = d[k];
        if c < '0' || c > '9' {
            assert(!all_digits(digits)) by {
                assert(digits[k - start] == c);
            }
            return None;
        }
        let v = (c as u32 - 48) as usize;
        assert(d@.subrange(start as int, k + 1).drop_last() =~= d@.subrange(start as int, k as int));
        if value > (usize::MAX - v) / 10 {
            proof {
                let p = d@.subrange(start as int, k + 1);
                assert(value * 10 + v > usize::MAX) by (nonlinear_arith)
                    requires
                        value > (usize::MAX - v) / 10,
                        v <= 9;
                assert(decimal_value(p) == value * 10 + v);
                if all_digits(digits) {
                    assert(p =~= digits.subrange(0, p.len() as int));
                    lemma_decimal_grows(p, digits);
                }
            }
            return None;
        }
        value = value * 10 + v;
        k = k + 1;
    }
    Some(value)
}

proof fn lemma_decimal_grows(p: Seq<char>, s: Seq<char>)
    requires
        p.len() <= s.len(),
        p == s.subrange(0, p.len() as int),
        all_digits(s),
    ensures
        decimal_value(p) <= decimal_value(s),
    decreases s.len(),
{
    if p.len() < s.len() {
        assert(s.drop_last().subrange(0, p.len() as int) =~= p);
        assert forall|i: int| 0 <= i < s.drop_last().len() implies '0' <= #[trigger] s.drop_last()[i] && s.drop_last()[i] <= '9' by {
            assert(s.drop_last()[i] == s[i]);
        }
        lemma_decimal_grows(p, s.drop_last());
    } else {
        assert(p =~= s);
    }
}

fn key_of(d: &Vec<char>, from: usize, to: usize) -> (r: String)
    requires
        from <= to <= d@.len(),
    ensures
        r@ == d@.subrange(from as int, to as int),
{
    let mut r = String::new();
    for k in from..to
        invariant
            from <= to <= d@.len(),
            r@ == d@.subrange(from as int, k as int),
    {
        push_char(&mut r, d[k]);
        assert(r@ =~= d@.subrange(from as int, k + 1));
    }
    r
}

/// Resolve a dotted/bracket path (`a.b[0].c`) against `root`.
pub fn lookup<'a>(root: &'a JsonValue, dotted: &str) -> (r: Option<&'a JsonValue>)
    ensures
        crate::json::opt_view(r) == spec_lookup(root@, dotted@),
{
    let d = chars_of(dotted);
    let mut cur = root;
    let mut i: usize = 0;
    let mut start: usize = 0;
    while i < d.len()
        invariant
            d@ == dotted@,
            start <= i <= d@.len(),
            spec_lookup(root@, dotted@) == lookup_from(cur@, d@, i as int, start as int),
        decreases d@.len() - i,
    {
        let ghost cur0 = cur@;
        let ghost start0 = start as int;
        let ch = d[i];
        assert(lookup_from(cur0, d@, i as int, start0) == (if ch == '.' {
            match step_token(cur0, d@, start0, i as int) {
                Some(c) => lookup_from(c, d@, i + 1, i + 1),
                None => None,
            }
        } else if ch == '[' {
            match step_token(cur0, d@, start0, i as int) {
                Some(c) => match find_char(d@, ']', i as int) {
                    Some(j) => match parse_index(d@.subrange(i + 1, j)) {
                        Some(idx) => match item(c, idx) {
                            Some(c2) => lookup_from(c2, d@, j + 1, j + 1),
                            None => None,
                        },
                        None => None,
                    },
                    None => None,
                },
                None => None,
            }
        } else {
            lookup_from(cur0, d@, i + 1, start0)
        }));
        if ch == '.' {
            if i > start {
                let key = key_of(&d, start, i);
                match cur.get(key.as_str()) {
                    Some(c) => {
                        cur = c;
                    },
                    None => {
                        return None;
                    },
                }
            }
            start = i + 1;
        } else if ch == '[' {
            if i > start {
                let key = key_of(&d, start, i);
                match cur.get(key.as_str()) {
                    Some(c) => {
                        cur = c;
                    },
                    None => {
                        return None;
                    },
                }
            }
            proof {
                lemma_find_char(d@, ']', i as int);
            }
            let j = match find_close(&d, i) {
                Some(j) => j,
                None => {
                    return None;
                },
            };
            let idx = match parse_index_exec(&d, i + 1, j) {
                Some(idx) => idx,
                None => {
                    return None;
                },
            };
            match cur {
                JsonValue::Array(items) => {
                    assert(cur@ == JView::Array(crate::json::jv_seq(items@)));
                    assert(crate::json::jv_seq(items@).len() == items@.len());
                    if idx < items.len() {
                        assert(crate::json::jv_seq(items@)[idx as int] == items@[idx as int]@);
                        cur = &items[idx];
                    } else {
                        return None;
                    }
                },
                _ => {
                    return None;
                },
            }
            i = j;
            start = j + 1;
        }
        i = i + 1;
    }
    // The end of the path closes the last token.
    if i > start {
        let key = key_of(&d, start, i);
        match cur.get(key.as_str()) {
            Some(c) => {
                cur = c;
            },
            None => {
                return None;
            },
        }
    }
    proof {
        assert(lookup_from(cur@, d@, (i + 1) as int, (i + 1) as int) == Some(cur@));
    }
    Some(cur)
}

/// The predicate's path resolves in `ctx` to a value equal to the wanted one.
pub open spec fn pred_holds(ctx: JView, p: (Seq<char>, JView)) -> bool {
    match spec_lookup(ctx, p.0) {
        Some(got) => json_eq(got, p.1),
        None => false,
    }
}

/// Every predicate of `ps` holds.
pub open spec fn all_hold(ctx: JView, ps: Entries) -> bool {
    forall|k: int| 0 <= k < ps.len() ==> #[trigger] pred_holds(ctx, ps[k])
}

/// Every predicate holds (none given: trivially).
pub open spec fn spec_matches(ctx: JView, predicates: Option<Entries>) -> bool {
    match predicates {
        None => true,
        Some(ps) => all_hold(ctx, ps),
    }
}

proof fn lemma_not_all_match(c: JView, ps: Entries, k: int)
    requires
        0 <= k < ps.len(),
        !pred_holds(c, ps[k]),
    ensures
        !spec_matches(c, Some(ps)),
{
    if spec_matches(c, Some(ps)) {
        assert(all_hold(c, ps));
        assert(pred_holds(c, ps[k]));
    }
}

fn predicates_hold(ctx: &JsonValue, predicates: Option<&JsonMap>) -> (r: bool)
    ensures
        r == spec_matches(ctx@, match predicates {
            Some(m) => Some(m@),
            None => None,
        }),
{
    let ghost c = ctx@;
    match predicates {
        None => true,
        Some(m) => {
            let ghost ps = m@;
            let n = m.entries.len();
            for k in 0..n
                invariant
                    n == m.entries@.len(),
                    ps == m@,
                    c == ctx@,
                    predicates == Some(m),
                    forall|q: int| 0 <= q < k ==> #[trigger] pred_holds(c, ps[q]),
            {
                assert(ps[k as int] == (m.entries@[k as int].0@, m.entries@[k as int].1@));
                let ok = match lookup(ctx, m.entries[k].0.as_str()) {
                    Some(got) => values_equal(got, &m.entries[k].1),
                    None => false,
                };
                if !ok {
                    assert(!pred_holds(c, ps[k as int]));
                    assert(ps.len() == n);
                    proof {
                        lemma_not_all_match(c, ps, k as int);
                    }
                    return false;
                }
            }
            true
        },
    }
}


// ---- scripted interceptor and resolver ----------------------------------------------------

/// The members of `v` when it is an object.
pub open spec fn obj_of(v: Option<JView>) -> Option<Entries> {
    match v {
        Some(JView::Object(es)) => Some(es),
        _ => None,
    }
}

/// A one-member object.
pub open spec fn obj1(k: Seq<char>, v: JView) -> JView {
    JView::Object(seq![(k, v)])
}

/// `{"decision": "allow"}`.
pub open spec fn allow_json() -> JView {
    obj1("decision"@, JView::Str("allow"@))
}

/// `{"__ctk_fault__": "raise"}`.
pub open spec fn fault_json() -> JView {
    obj1("__ctk_fault__"@, JView::Str("raise"@))
}

/// The interception point a context names (`""` when none).
pub open spec fn ctx_point(ctx: JView) -> Seq<char> {
    match view_str(member(ctx, "interception_point"@)) {
        Some(s) => s,
        None => Seq::empty(),
    }
}

/// What a matching interceptor rule returns: the fault sentinel, the
/// malformed verdict, or its `return` (an `allow` by default).
pub open spec fn rule_return(rule: JView) -> JView {
    let fault = view_str(member(rule, "fault"@));
    if fault == Some("raise"@) {
        fault_json()
    } else if fault == Some("malformed_verdict"@) {
        obj1("decision"@, JView::Str("transform"@))
    } else {
        match member(rule, "return"@) {
            Some(r) => r,
            None => allow_json(),
        }
    }
}

/// The first rule at the context's point whose `match` predicates hold
/// answers; without one, `allow`.
pub open spec fn spec_scripted_intercept(rules: Seq<JView>, ctx: JView) -> JView
    decreases rules.len(),
{
    if rules.len() == 0 {
        allow_json()
    } else if view_str(member(rules[0], "at"@)) == Some(ctx_point(ctx)) && spec_matches(ctx, obj_of(member(rules[0], "match"@))) {
        rule_return(rules[0])
    } else {
        spec_scripted_intercept(rules.drop_first(), ctx)
    }
}

fn str_json(s: &str) -> (r: JsonValue)
    ensures
        r@ == JView::Str(s@),
{
    JsonValue::String(to_owned(s))
}

fn object1(k: &str, v: JsonValue) -> (r: JsonValue)
    ensures
        r@ == obj1(k@, v@),
{
    let mut m = JsonMap::new();
    m.insert(to_owned(k), v);
    assert(m@ =~= seq![(k@, v@)]);
    JsonValue::Object(m)
}

fn member_str<'a>(v: &'a JsonValue, k: &str) -> (r: Option<&'a str>)
    ensures
        match r {
            Some(s) => view_str(member(v@, k@)) == Some(s@),
            None => view_str(member(v@, k@)) is None,
        },
{
    match v.get(k) {
        Some(JsonValue::String(s)) => Some(s.as_str()),
        _ => None,
    }
}

fn member_obj<'a>(v: &'a JsonValue, k: &str) -> (r: Option<&'a JsonMap>)
    ensures
        match r {
            Some(m) => obj_of(member(v@, k@)) == Some(m@),
            None => obj_of(member(v@, k@)) is None,
        },
{
    match v.get(k) {
        Some(JsonValue::Object(m)) => Some(m),
        _ => None,
    }
}

fn opt_str_eq(a: Option<&str>, b: &str) -> (r: bool)
    ensures
        r == (match a {
            Some(x) => x@ == b@,
            None => false,
        }),
{
    match a {
        Some(x) => str_eq(x, b),
        None => false,
    }
}

/// Evaluate a vector's `interceptor_script` against `ctx`: the first rule
/// at the context's point whose `match` predicates hold answers (its
/// `return`, or a fault sentinel); unmatched, `{"decision":"allow"}`.
pub fn scripted_intercept(rules: &Vec<JsonValue>, ctx: &JsonValue) -> (r: JsonValue)
    ensures
        r@ == spec_scripted_intercept(crate::json::jv_seq(rules@), ctx@),
{
    proof {
        reveal_strlit("");
    }
    let ip: &str = match member_str(ctx, "interception_point") {
        Some(s) => s,
        None => "",
    };
    let ghost rs = crate::json::jv_seq(rules@);
    let n = rules.len();
    assert(rs.skip(0) =~= rs);
    for i in 0..n
        invariant
            n == rules@.len(),
            rs == crate::json::jv_seq(rules@),
            ip@ == ctx_point(ctx@),
            spec_scripted_intercept(rs, ctx@) == spec_scripted_intercept(rs.skip(i as int), ctx@),
    {
        proof {
            assert(rs.skip(i as int).drop_first() =~= rs.skip(i + 1));
            assert(rs.skip(i as int)[0] == rules@[i as int]@);
        }
        let rule = &rules[i];
        if opt_str_eq(member_str(rule, "at"), ip) && predicates_hold(ctx, member_obj(rule, "match")) {
            let fault = member_str(rule, "fault");
            if opt_str_eq(fault, "raise") {
                return object1("__ctk_fault__", str_json("raise"));
            }
            if opt_str_eq(fault, "malformed_verdict") {
                return object1("decision", str_json("transform"));
            }
            return match rule.get("return") {
                Some(r) => r.clone(),
                None => object1("decision", str_json("allow")),
            };
        }
    }
    assert(rs.skip(n as int) =~= Seq::<JView>::empty());
    object1("decision", str_json("allow"))
}

/// Member `k` of `v`, `null` when absent (JSON indexing).
pub open spec fn index_or_null(v: JView, k: Seq<char>) -> JView {
    match member(v, k) {
        Some(x) => x,
        None => JView::Null,
    }
}

/// `{"context_identity": id, "outcome": outcome}` and `verdict` when given.
pub open spec fn resolution_json(id: Seq<char>, outcome: JView, verdict: Option<JView>) -> JView {
    let base = seq![("context_identity"@, JView::Str(id)), ("outcome"@, outcome)];
    JView::Object(match verdict {
        Some(v) => base.push(("verdict"@, v)),
        None => base,
    })
}

/// The identity a matching resolver rule echoes: recomputed from the
/// request context (`""` when the provider rejects it), an override, or
/// the request's.
pub open spec fn rule_identity(r: JView, ctx: JView, context_identity: Seq<char>) -> Seq<char> {
    if member(r, "echo_recomputed"@) == Some(JView::Bool(true)) {
        match ctx {
            JView::Object(es) => if crate::canonical::identity_domain(es) {
                crate::canonical::spec_identity(es)
            } else {
                Seq::empty()
            },
            _ => Seq::empty(),
        }
    } else {
        match view_str(member(r, "identity_override"@)) {
            Some(o) => o,
            None => context_identity,
        }
    }
}

/// What a matching resolver rule answers.
pub open spec fn resolve_rule(rule: JView, ctx: JView, context_identity: Seq<char>) -> JView {
    let r = index_or_null(rule, "resolve"@);
    if view_str(member(r, "fault"@)) == Some("raise"@) {
        fault_json()
    } else {
        resolution_json(rule_identity(r, ctx, context_identity), index_or_null(r, "outcome"@), member(r, "verdict"@))
    }
}

/// The first rule whose `match` predicates hold answers; without one,
/// `unresolved` echoing the identity.
pub open spec fn spec_scripted_resolve(rules: Seq<JView>, ctx: JView, context_identity: Seq<char>) -> JView
    decreases rules.len(),
{
    if rules.len() == 0 {
        resolution_json(context_identity, JView::Str("unresolved"@), None)
    } else if spec_matches(ctx, obj_of(member(rules[0], "match"@))) {
        resolve_rule(rules[0], ctx, context_identity)
    } else {
        spec_scripted_resolve(rules.drop_first(), ctx, context_identity)
    }
}

fn resolution(id: String, outcome: JsonValue, verdict: Option<JsonValue>) -> (r: JsonValue)
    ensures
        r@ == resolution_json(id@, outcome@, crate::json::opt_value_view(verdict)),
{
    let mut entries: Vec<(String, JsonValue)> = Vec::new();
    entries.push((to_owned("context_identity"), JsonValue::String(id)));
    entries.push((to_owned("outcome"), outcome));
    match verdict {
        Some(v) => {
            entries.push((to_owned("verdict"), v));
        },
        None => {},
    }
    let r = JsonValue::Object(JsonMap { entries });
    assert(crate::json::jv_entries(entries@) =~= (match resolution_json(id@, outcome@, crate::json::opt_value_view(verdict)) {
        JView::Object(es) => es,
        _ => Seq::empty(),
    }));
    r
}

fn get_or_null(v: &JsonValue, k: &str) -> (r: JsonValue)
    ensures
        r@ == index_or_null(v@, k@),
{
    match v.get(k) {
        Some(x) => x.clone(),
        None => JsonValue::Null,
    }
}

/// Evaluate a vector's `approval_script` against the request context: the
/// first rule whose `match` predicates hold answers
/// `{outcome, context_identity, verdict?}` (or a fault sentinel); without
/// one, `unresolved` echoing `context_identity`.
pub fn scripted_resolve(rules: &Vec<JsonValue>, ctx: &JsonValue, context_identity: &str) -> (r: JsonValue)
    ensures
        r@ == spec_scripted_resolve(crate::json::jv_seq(rules@), ctx@, context_identity@),
{
    let ghost rs = crate::json::jv_seq(rules@);
    let n = rules.len();
    assert(rs.skip(0) =~= rs);
    for i in 0..n
        invariant
            n == rules@.len(),
            rs == crate::json::jv_seq(rules@),
            spec_scripted_resolve(rs, ctx@, context_identity@) == spec_scripted_resolve(rs.skip(i as int), ctx@, context_identity@),
    {
        proof {
            assert(rs.skip(i as int).drop_first() =~= rs.skip(i + 1));
            assert(rs.skip(i as int)[0] == rules@[i as int]@);
        }
        let rule = &rules[i];
        if predicates_hold(ctx, member_obj(rule, "match")) {
            let r = get_or_null(rule, "resolve");
            if opt_str_eq(member_str(&r, "fault"), "raise") {
                return object1("__ctk_fault__", str_json("raise"));
            }
            let recompute = match r.get("echo_recomputed") {
                Some(JsonValue::Bool(b)) => *b,
                _ => false,
            };
            let identity: String = if recompute {
                match ctx {
                    JsonValue::Object(m) => match crate::canonical::context_identity(m) {
                        Ok(id) => id,
                        Err(_) => String::new(),
                    },
                    _ => String::new(),
                }
            } else {
                match member_str(&r, "identity_override") {
                    Some(o) => to_owned(o),
                    None => to_owned(context_identity),
                }
            };
            let verdict = match r.get("verdict") {
                Some(v) => Some(v.clone()),
                None => None,
            };
            return resolution(identity, get_or_null(&r, "outcome"), verdict);
        }
    }
    assert(rs.skip(n as int) =~= Seq::<JView>::empty());
    resolution(to_owned(context_identity), str_json("unresolved"), None)
}

// ---- diagnostic text ----------------------------------------------------------------------

/// One character of a quoted diagnostic string.
pub open spec fn debug_char(c: char) -> Seq<char> {
    if c == '"' {
        seq!['\\', '"']
    } else if c == '\\' {
        seq!['\\', '\\']
    } else if c == '\n' {
        seq!['\\', 'n']
    } else if c == '\r' {
        seq!['\\', 'r']
    } else if c == '\t' {
        seq!['\\', 't']
    } else if c == '\0' {
        seq!['\\', '0']
    } else if (c as u32) < 0x20 || c as u32 == 0x7f {
        "\\u{"@ + short_hex((c as u32) as nat) + "}"@
    } else {
        seq![c]
    }
}

/// Lowercase hex of `n < 256` without leading zeros.
pub open spec fn short_hex(n: nat) -> Seq<char> {
    if n < 16 {
        seq![crate::jcs::hex_char(n)]
    } else {
        seq![crate::jcs::hex_char(n / 16), crate::jcs::hex_char(n % 16)]
    }
}

/// The escaped body of a quoted diagnostic string.
pub open spec fn debug_body(s: Seq<char>) -> Seq<char>
    decreases s.len(),
{
    if s.len() == 0 {
        Seq::empty()
    } else {
        debug_body(s.drop_last()) + debug_char(s.last())
    }
}

/// A string quoted for a diagnostic.
pub open spec fn debug_str(s: Seq<char>) -> Seq<char> {
    seq!['"'] + debug_body(s) + seq!['"']
}

/// Texts joined by `", "`.
pub open spec fn join_comma(ts: Seq<Seq<char>>) -> Seq<char>
    decreases ts.len(),
{
    if ts.len() == 0 {
        Seq::empty()
    } else if ts.len() == 1 {
        ts[0]
    } else {
        join_comma(ts.drop_last()) + ", "@ + ts.last()
    }
}

/// `[a, b, …]`.
pub open spec fn debug_list(ts: Seq<Seq<char>>) -> Seq<char> {
    "["@ + join_comma(ts) + "]"@
}

/// Strings quoted, as a list.
pub open spec fn debug_strs(ss: Seq<Seq<char>>) -> Seq<char> {
    debug_list(ss.map_values(|s: Seq<char>| debug_str(s)))
}

/// The decimal text of an integer.
pub open spec fn int_text(i: int) -> Seq<char> {
    if i < 0 {
        seq!['-'] + crate::jcs::decimal((-i) as nat)
    } else {
        crate::jcs::decimal(i as nat)
    }
}

/// The structural diagnostic text of a value
/// (`Object {"k": Number(1)}`, `Array [String("x")]`, …).
pub open spec fn debug_value(v: JView) -> Seq<char>
    decreases v,
{
    match v {
        JView::Null => "Null"@,
        JView::Bool(b) => if b {
            "Bool(true)"@
        } else {
            "Bool(false)"@
        },
        JView::Number(n) => "Number("@ + crate::jcs::canon_number(n) + ")"@,
        JView::Str(s) => "String("@ + debug_str(s) + ")"@,
        JView::Array(items) => "Array "@ + debug_list(debug_items(items)),
        JView::Object(es) => "Object {"@ + join_comma(debug_members(es)) + "}"@,
    }
}

/// Diagnostic texts of items.
pub open spec fn debug_items(s: Seq<JView>) -> Seq<Seq<char>>
    decreases s,
{
    if s.len() == 0 {
        Seq::empty()
    } else {
        proof {
            assert(decreases_to!(s => s[s.len() - 1]));
            assert(decreases_to!(s => s.drop_last()));
        }
        debug_items(s.drop_last()).push(debug_value(s[s.len() - 1]))
    }
}

/// Diagnostic texts of members: `"key": value`.
pub open spec fn debug_members(es: Entries) -> Seq<Seq<char>>
    decreases es,
{
    if es.len() == 0 {
        Seq::empty()
    } else {
        proof {
            assert(decreases_to!(es => es[es.len() - 1]));
            assert(decreases_to!(es => es.drop_last()));
        }
        debug_members(es.drop_last()).push(debug_str(es[es.len() - 1].0) + ": "@ + debug_value(es[es.len() - 1].1))
    }
}

/// Appends a quoted diagnostic string.
pub fn write_debug_str(s: &str, out: &mut String)
    ensures
        final(out)@ == old(out)@ + debug_str(s@),
{
    let cs = chars_of(s);
    let ghost o = out@;
    push_char(out, '"');
    let n = cs.len();
    for i in 0..n
        invariant
            n == cs@.len(),
            cs@ == s@,
            out@ == o + seq!['"'] + debug_body(s@.take(i as int)),
    {
        let c = cs[i];
        if c == '"' {
            push_char(out, '\\');
            push_char(out, '"');
        } else if c == '\\' {
            push_char(out, '\\');
            push_char(out, '\\');
        } else if c == '\n' {
            push_char(out, '\\');
            push_char(out, 'n');
        } else if c == '\r' {
            push_char(out, '\\');
            push_char(out, 'r');
        } else if c == '\t' {
            push_char(out, '\\');
            push_char(out, 't');
        } else if c == '\0' {
            push_char(out, '\\');
            push_char(out, '0');
        } else if (c as u32) < 0x20 || c as u32 == 0x7f {
            let v = c as u32;
            push_str(out, "\\u{");
            if v >= 16 {
                push_char(out, crate::jcs::char_from_hex(v / 16));
            }
            push_char(out, crate::jcs::char_from_hex(v % 16));
            push_char(out, '}');
            proof {
                reveal_strlit("\\u{");
                reveal_strlit("}");
            }
        } else {
            push_char(out, c);
        }
        assert(s@.take(i + 1).drop_last() =~= s@.take(i as int));
        assert(out@ =~= o + seq!['"'] + debug_body(s@.take(i + 1)));
    }
    assert(s@.take(n as int) =~= s@);
    push_char(out, '"');
}

proof fn lemma_join_comma_push(ts: Seq<Seq<char>>, t: Seq<char>)
    ensures
        join_comma(ts.push(t)) == if ts.len() == 0 {
            t
        } else {
            join_comma(ts) + ", "@ + t
        },
{
    assert(ts.push(t).drop_last() =~= ts);
}

/// Appends quoted strings as a list.
pub fn write_debug_strs(ss: &Vec<String>, out: &mut String)
    ensures
        final(out)@ == old(out)@ + debug_strs(ss@.map_values(|s: String| s@)),
{
    let ghost texts = ss@.map_values(|s: String| s@).map_values(|s: Seq<char>| debug_str(s));
    let ghost o = out@;
    push_str(out, "[");
    let n = ss.len();
    for i in 0..n
        invariant
            n == ss@.len(),
            texts == ss@.map_values(|s: String| s@).map_values(|s: Seq<char>| debug_str(s)),
            out@ == o + "["@ + join_comma(texts.take(i as int)),
    {
        proof {
            lemma_join_comma_push(texts.take(i as int), texts[i as int]);
            assert(texts.take(i + 1) =~= texts.take(i as int).push(texts[i as int]));
        }
        if i > 0 {
            push_str(out, ", ");
        }
        write_debug_str(ss[i].as_str(), out);
        assert(out@ =~= o + "["@ + join_comma(texts.take(i + 1)));
    }
    assert(texts.take(n as int) =~= texts);
    push_str(out, "]");
}

/// Appends the decimal text of an integer.
pub fn write_int(i: i64, out: &mut String)
    ensures
        final(out)@ == old(out)@ + int_text(i as int),
{
    if i < 0 {
        push_char(out, '-');
        let m: u64 = if i == -9223372036854775808i64 {
            9223372036854775808u64
        } else {
            (-i) as u64
        };
        crate::jcs::write_decimal(m, out);
    } else {
        crate::jcs::write_decimal(i as u64, out);
    }
}

proof fn lemma_debug_items(s: Seq<JView>)
    ensures
        debug_items(s).len() == s.len(),
        forall|i: int| 0 <= i < s.len() ==> #[trigger] debug_items(s)[i] == debug_value(s[i]),
    decreases s.len(),
{
    if s.len() > 0 {
        lemma_debug_items(s.drop_last());
    }
}

proof fn lemma_debug_members(es: Entries)
    ensures
        debug_members(es).len() == es.len(),
        forall|i: int| 0 <= i < es.len() ==> #[trigger] debug_members(es)[i] == debug_str(es[i].0) + ": "@ + debug_value(es[i].1),
    decreases es.len(),
{
    if es.len() > 0 {
        lemma_debug_members(es.drop_last());
    }
}

/// Appends the structural diagnostic text of a value.
pub fn write_debug_value(v: &JsonValue, out: &mut String)
    ensures
        final(out)@ == old(out)@ + debug_value(v@),
    decreases v,
{
    let ghost o = out@;
    match v {
        JsonValue::Null => push_str(out, "Null"),
        JsonValue::Bool(b) => {
            if *b {
                push_str(out, "Bool(true)");
            } else {
                push_str(out, "Bool(false)");
            }
        },
        JsonValue::Number(_) => {
            push_str(out, "Number(");
            crate::jcs::write_canonical(v, out);
            push_str(out, ")");
        },
        JsonValue::String(s) => {
            push_str(out, "String(");
            write_debug_str(s.as_str(), out);
            push_str(out, ")");
        },
        JsonValue::Array(items) => {
            let ghost texts = debug_items(crate::json::jv_seq(items@));
            proof {
                lemma_debug_items(crate::json::jv_seq(items@));
            }
            push_str(out, "Array ");
            push_str(out, "[");
            let ghost o2 = out@;
            let n = items.len();
            for i in 0..n
                invariant
                    n == items@.len(),
                    *v == JsonValue::Array(*items),
                    texts == debug_items(crate::json::jv_seq(items@)),
                    texts.len() == n,
                    forall|j: int| 0 <= j < n ==> #[trigger] texts[j] == debug_value(items@[j]@),
                    out@ == o2 + join_comma(texts.take(i as int)),
            {
                proof {
                    assert(decreases_to!(*v => (*v)->Array_0));
                    assert(decreases_to!(*items => items[i as int]));
                    lemma_join_comma_push(texts.take(i as int), texts[i as int]);
                    assert(texts.take(i + 1) =~= texts.take(i as int).push(texts[i as int]));
                }
                if i > 0 {
                    push_str(out, ", ");
                }
                write_debug_value(&items[i], out);
                assert(out@ =~= o2 + join_comma(texts.take(i + 1)));
            }
            assert(texts.take(n as int) =~= texts);
            push_str(out, "]");
        },
        JsonValue::Object(m) => {
            let ghost texts = debug_members(m@);
            proof {
                lemma_debug_members(m@);
            }
            push_str(out, "Object {");
            let ghost o2 = out@;
            let n = m.entries.len();
            for i in 0..n
                invariant
                    n == m.entries@.len(),
                    *v == JsonValue::Object(*m),
                    texts == debug_members(m@),
                    texts.len() == n,
                    forall|j: int| 0 <= j < n ==> #[trigger] texts[j] == debug_str(m@[j].0) + ": "@ + debug_value(m@[j].1),
                    out@ == o2 + join_comma(texts.take(i as int)),
            {
                proof {
                    assert(decreases_to!(*v => (*v)->Object_0));
                    assert(decreases_to!(*m => m.entries));
                    assert(decreases_to!(m.entries => m.entries[i as int]));
                    assert(decreases_to!(m.entries[i as int] => m.entries[i as int].1));
                    assert(m@[i as int] == (m.entries@[i as int].0@, m.entries@[i as int].1@));
                    lemma_join_comma_push(texts.take(i as int), texts[i as int]);
                    assert(texts.take(i + 1) =~= texts.take(i as int).push(texts[i as int]));
                }
                if i > 0 {
                    push_str(out, ", ");
                }
                let ghost mid = out@;
                write_debug_str(m.entries[i].0.as_str(), out);
                push_str(out, ": ");
                write_debug_value(&m.entries[i].1, out);
                assert(out@ =~= mid + texts[i as int]);
                assert(out@ =~= o2 + join_comma(texts.take(i + 1)));
            }
            assert(texts.take(n as int) =~= texts);
            push_str(out, "}");
        },
    }
}

// ---- run records and results ---------------------------------------------------------------

/// One `(input_identity, enforced_identity)` pair per interception.
#[derive(Debug)]
pub struct IdentityPair {
    pub input_identity: Option<String>,
    pub enforced_identity: Option<String>,
}

/// What a harness reports of one run.
#[derive(Debug)]
pub struct RunRecord {
    pub outcome: String,
    pub final_output: JsonValue,
    pub tool_invocations: Vec<JsonValue>,
    pub error: Option<String>,
    /// One pair per interception, in order.
    pub identities: Vec<IdentityPair>,
    /// Wire-shaped records, one per emission, in order.
    pub records: Vec<JsonValue>,
}

/// Result of one vector run.
#[derive(Debug)]
pub struct VectorResult {
    pub id: String,
    pub title: String,
    /// Declared-surface tag: grouping results by part is the report.
    pub part: String,
    /// `"pass"`, `"fail"` or `"skip"`.
    pub status: &'static str,
    pub detail: String,
    pub failures: Vec<String>,
}

/// Views of strings.
pub open spec fn texts(v: Seq<String>) -> Seq<Seq<char>> {
    v.map_values(|s: String| s@)
}

// ---- capability skip ----------------------------------------------------------------------

/// The strings of an array member (non-strings skipped).
pub open spec fn string_items(v: Option<JView>) -> Seq<Seq<char>> {
    match v {
        Some(JView::Array(items)) => strings_in(items),
        _ => Seq::empty(),
    }
}

/// The strings among `items`, in order.
pub open spec fn strings_in(items: Seq<JView>) -> Seq<Seq<char>>
    decreases items.len(),
{
    if items.len() == 0 {
        Seq::empty()
    } else {
        let rest = strings_in(items.drop_last());
        match items.last() {
            JView::Str(s) => rest.push(s),
            _ => rest,
        }
    }
}

/// The members of `needed` not in `have`, in order.
pub open spec fn missing_caps(needed: Seq<Seq<char>>, have: Seq<Seq<char>>) -> Seq<Seq<char>>
    decreases needed.len(),
{
    if needed.len() == 0 {
        Seq::empty()
    } else {
        let rest = missing_caps(needed.drop_last(), have);
        if have.contains(needed.last()) {
            rest
        } else {
            rest.push(needed.last())
        }
    }
}

/// Why a vector is skipped for a harness with capabilities `caps`: the
/// capabilities it needs that the harness lacks.
pub open spec fn spec_should_skip(vector: JView, caps: Seq<Seq<char>>) -> Option<Seq<char>> {
    let missing = missing_caps(string_items(member(vector, "capabilities"@)), caps);
    if missing.len() == 0 {
        None
    } else {
        Some("missing capabilities: "@ + debug_strs(missing))
    }
}

pub(crate) fn strings_of(v: Option<&JsonValue>) -> (r: Vec<String>)
    ensures
        texts(r@) == string_items(crate::json::opt_view(v)),
{
    let mut out: Vec<String> = Vec::new();
    match v {
        Some(JsonValue::Array(items)) => {
            let ghost iv = crate::json::jv_seq(items@);
            let n = items.len();
            for i in 0..n
                invariant
                    n == items@.len(),
                    iv == crate::json::jv_seq(items@),
                    texts(out@) == strings_in(iv.take(i as int)),
            {
                assert(iv.take(i + 1).drop_last() =~= iv.take(i as int));
                assert(iv[i as int] == items@[i as int]@);
                let ghost before = out@;
                match &items[i] {
                    JsonValue::String(s) => {
                        out.push(s.clone());
                        assert(texts(out@) =~= texts(before).push(s@));
                    },
                    _ => {},
                }
            }
            assert(iv.take(n as int) =~= iv);
        },
        _ => {
            assert(texts(out@) =~= Seq::<Seq<char>>::empty());
        },
    }
    out
}

fn contains_string(have: &Vec<String>, s: &str) -> (r: bool)
    ensures
        r == texts(have@).contains(s@),
{
    let n = have.len();
    for i in 0..n
        invariant
            n == have@.len(),
            forall|j: int| 0 <= j < i ==> texts(have@)[j] != s@,
    {
        if str_eq(have[i].as_str(), s) {
            assert(texts(have@)[i as int] == s@);
            return true;
        }
    }
    false
}

/// Whether a vector should be skipped for a harness: `None`, or the
/// capabilities it needs that the harness lacks.
pub fn should_skip(vector: &JsonValue, harness_caps: &Vec<String>) -> (r: Option<String>)
    ensures
        crate::types::opt_str_view(r) == spec_should_skip(vector@, texts(harness_caps@)),
{
    let needed = strings_of(vector.get("capabilities"));
    let ghost nv = texts(needed@);
    let mut missing: Vec<String> = Vec::new();
    let n = needed.len();
    for i in 0..n
        invariant
            n == needed@.len(),
            nv == texts(needed@),
            texts(missing@) == missing_caps(nv.take(i as int), texts(harness_caps@)),
    {
        assert(nv.take(i + 1).drop_last() =~= nv.take(i as int));
        let ghost before = missing@;
        if !contains_string(harness_caps, needed[i].as_str()) {
            missing.push(needed[i].clone());
            assert(texts(missing@) =~= texts(before).push(nv[i as int]));
        }
    }
    assert(nv.take(n as int) =~= nv);
    if missing.len() == 0 {
        return None;
    }
    let mut d = to_owned("missing capabilities: ");
    write_debug_strs(&missing, &mut d);
    Some(d)
}

// ---- assertions: contexts, sequence, identities, run outcome ---------------------------------

/// The required-core fields every context must carry.
pub open spec fn required_names() -> Seq<Seq<char>> {
    seq!["spec"@, "interception_point"@, "timestamp"@, "sequence"@, "agent"@, "session"@, "target"@]
}

/// The interception point a value names, when a string.
pub open spec fn point_of(v: JView) -> Option<Seq<char>> {
    view_str(member(v, "interception_point"@))
}

/// Failures for the required fields `ks` missing from a context.
pub open spec fn missing_required(ip: Seq<char>, es: Entries, ks: Seq<Seq<char>>) -> Seq<Seq<char>>
    decreases ks.len(),
{
    if ks.len() == 0 {
        Seq::empty()
    } else {
        let rest = missing_required(ip, es, ks.drop_last());
        if map_get(es, ks.last()) is None {
            rest.push(ip + ": missing required field "@ + debug_str(ks.last()))
        } else {
            rest
        }
    }
}

/// Failures of a recorded context against the required core.
pub open spec fn required_failures(ctx: JView) -> Seq<Seq<char>> {
    let ip = match point_of(ctx) {
        Some(s) => s,
        None => "<missing>"@,
    };
    match ctx {
        JView::Object(es) => missing_required(ip, es, required_names()),
        _ => seq![ip + ": context is not an object"@],
    }
}

fn required_list() -> (r: Vec<&'static str>)
    ensures
        r@.map_values(|s: &'static str| s@) == required_names(),
{
    let mut v: Vec<&'static str> = Vec::new();
    v.push("spec");
    v.push("interception_point");
    v.push("timestamp");
    v.push("sequence");
    v.push("agent");
    v.push("session");
    v.push("target");
    assert(v@.map_values(|s: &'static str| s@) =~= required_names());
    v
}

fn validate_required(ctx: &JsonValue, failures: &mut Vec<String>)
    ensures
        texts(final(failures)@) == texts(old(failures)@) + required_failures(ctx@),
{
    let ghost f0 = texts(failures@);
    let ip: String = match member_str(ctx, "interception_point") {
        Some(s) => to_owned(s),
        None => to_owned("<missing>"),
    };
    match ctx {
        JsonValue::Object(m) => {
            let ks = required_list();
            let ghost kv = ks@.map_values(|s: &'static str| s@);
            let n = ks.len();
            for i in 0..n
                invariant
                    n == ks@.len(),
                    kv == ks@.map_values(|s: &'static str| s@),
                    kv == required_names(),
                    ctx@ == JView::Object(m@),
                    texts(failures@) == f0 + missing_required(ip@, m@, kv.take(i as int)),
            {
                assert(kv.take(i + 1).drop_last() =~= kv.take(i as int));
                let ghost before = failures@;
                if !m.contains_key(ks[i]) {
                    let mut d = ip.clone();
                    push_str(&mut d, ": missing required field ");
                    write_debug_str(ks[i], &mut d);
                    failures.push(d);
                    assert(texts(failures@) =~= texts(before).push(d@));
                }
            }
            assert(kv.take(n as int) =~= kv);
        },
        _ => {
            let mut d = ip.clone();
            push_str(&mut d, ": context is not an object");
            let ghost before = failures@;
            failures.push(d);
            assert(texts(failures@) =~= texts(before).push(d@));
        },
    }
}

/// The integer sequence numbers of the recorded contexts, in order.
pub open spec fn sequence_numbers(recorded: Seq<JView>) -> Seq<i64>
    decreases recorded.len(),
{
    if recorded.len() == 0 {
        Seq::empty()
    } else {
        let rest = sequence_numbers(recorded.drop_last());
        match crate::json::view_i64(member(recorded.last(), "sequence"@)) {
            Some(i) => rest.push(i),
            None => rest,
        }
    }
}

/// Strictly increasing.
pub open spec fn strictly_increasing(s: Seq<i64>) -> bool {
    forall|i: int, j: int| 0 <= i < j < s.len() ==> s[i] < s[j]
}

/// The failure when the recorded sequence numbers are not one strictly
/// increasing integer per context.
pub open spec fn sequence_failures(recorded: Seq<JView>) -> Seq<Seq<char>> {
    let sq = sequence_numbers(recorded);
    if strictly_increasing(sq) && sq.len() == recorded.len() {
        Seq::empty()
    } else {
        seq!["sequence not strictly increasing: "@ + debug_list(sq.map_values(|i: i64| int_text(i as int)))]
    }
}

proof fn lemma_sequence_numbers(rec: Seq<JView>)
    ensures
        sequence_numbers(rec).len() <= rec.len(),
        sequence_numbers(rec).len() == rec.len()
            <==> forall|i: int| 0 <= i < rec.len() ==> crate::json::view_i64(member(#[trigger] rec[i], "sequence"@)) is Some,
        sequence_numbers(rec).len() == rec.len() ==> forall|i: int| 0 <= i < rec.len()
            ==> crate::json::view_i64(member(#[trigger] rec[i], "sequence"@)) == Some(sequence_numbers(rec)[i]),
    decreases rec.len(),
{
    if rec.len() > 0 {
        let t = rec.drop_last();
        lemma_sequence_numbers(t);
        let s = sequence_numbers(rec);
        let st = sequence_numbers(t);
        if forall|i: int| 0 <= i < rec.len() ==> crate::json::view_i64(member(#[trigger] rec[i], "sequence"@)) is Some {
            assert forall|i: int| 0 <= i < t.len() implies crate::json::view_i64(member(#[trigger] t[i], "sequence"@)) is Some by {
                assert(t[i] == rec[i]);
            }
            assert(crate::json::view_i64(member(rec[rec.len() - 1], "sequence"@)) is Some);
            assert forall|i: int| 0 <= i < rec.len() implies crate::json::view_i64(member(#[trigger] rec[i], "sequence"@)) == Some(s[i]) by {
                if i < t.len() {
                    assert(t[i] == rec[i]);
                    assert(s[i] == st[i]);
                }
            }
        } else {
            let k = choose|k: int| 0 <= k < rec.len() && !(crate::json::view_i64(member(#[trigger] rec[k], "sequence"@)) is Some);
            if k < t.len() {
                assert(t[k] == rec[k]);
            }
        }
    }
}

/// The sequence check passes exactly when every recorded context carries an
/// integer sequence number and each is strictly greater than every earlier
/// one (no repeats, no going back).
pub proof fn law_sequence_check(recorded: Seq<JView>)
    ensures
        sequence_failures(recorded).len() == 0 <==> {
            &&& forall|i: int| 0 <= i < recorded.len() ==> crate::json::view_i64(member(#[trigger] recorded[i], "sequence"@)) is Some
            &&& forall|i: int, j: int| 0 <= i < j < recorded.len()
                ==> crate::json::view_i64(member(#[trigger] recorded[i], "sequence"@))->Some_0
                    < crate::json::view_i64(member(#[trigger] recorded[j], "sequence"@))->Some_0
        },
{
    lemma_sequence_numbers(recorded);
    let s = sequence_numbers(recorded);
    let goal = forall|i: int, j: int| 0 <= i < j < recorded.len()
        ==> crate::json::view_i64(member(#[trigger] recorded[i], "sequence"@))->Some_0
            < crate::json::view_i64(member(#[trigger] recorded[j], "sequence"@))->Some_0;
    if s.len() == recorded.len() {
        if strictly_increasing(s) {
            assert forall|i: int, j: int| 0 <= i < j < recorded.len() implies
                crate::json::view_i64(member(#[trigger] recorded[i], "sequence"@))->Some_0
                    < crate::json::view_i64(member(#[trigger] recorded[j], "sequence"@))->Some_0 by {
                assert(s[i] < s[j]);
            }
            assert(sequence_failures(recorded).len() == 0);
        } else {
            let (i, j) = choose|i: int, j: int| 0 <= i < j < s.len() && !(s[i] < s[j]);
            assert(crate::json::view_i64(member(recorded[i], "sequence"@)) == Some(s[i]));
            assert(crate::json::view_i64(member(recorded[j], "sequence"@)) == Some(s[j]));
            assert(!goal);
            assert(sequence_failures(recorded).len() == 1);
        }
    } else {
        assert(sequence_failures(recorded).len() == 1);
    }
}

fn assert_sequence(recorded: &Vec<JsonValue>, failures: &mut Vec<String>)
    ensures
        texts(final(failures)@) == texts(old(failures)@) + sequence_failures(crate::json::jv_seq(recorded@)),
{
    let ghost rv = crate::json::jv_seq(recorded@);
    let mut sq: Vec<i64> = Vec::new();
    let n = recorded.len();
    for i in 0..n
        invariant
            n == recorded@.len(),
            rv == crate::json::jv_seq(recorded@),
            sq@ == sequence_numbers(rv.take(i as int)),
    {
        assert(rv.take(i + 1).drop_last() =~= rv.take(i as int));
        assert(rv[i as int] == recorded@[i as int]@);
        match recorded[i].get("sequence") {
            Some(v) => match v.as_i64() {
                Some(q) => {
                    sq.push(q);
                },
                None => {},
            },
            None => {},
        }
    }
    assert(rv.take(n as int) =~= rv);
    let mut increasing = true;
    let m = sq.len();
    let mut k: usize = 1;
    while k < m
        invariant
            m == sq@.len(),
            1 <= k,
            increasing == (forall|i: int, j: int| 0 <= i < j < k && j < m ==> sq@[i] < sq@[j]),
        decreases m - k,
    {
        if sq[k - 1] >= sq[k] {
            increasing = false;
        }
        proof {
            if increasing {
                assert forall|i: int, j: int| 0 <= i < j < k + 1 && j < m implies sq@[i] < sq@[j] by {
                    if j == k && i < k - 1 {
                        assert(sq@[i] < sq@[(k - 1) as int]);
                    }
                }
            }
        }
        k = k + 1;
    }
    assert(increasing == strictly_increasing(sq@));
    if !(increasing && m == n) {
        let mut d = to_owned("sequence not strictly increasing: ");
        let ghost ts = sq@.map_values(|i: i64| int_text(i as int));
        let ghost o = d@;
        push_str(&mut d, "[");
        for q in 0..m
            invariant
                m == sq@.len(),
                ts == sq@.map_values(|i: i64| int_text(i as int)),
                d@ == o + "["@ + join_comma(ts.take(q as int)),
        {
            proof {
                lemma_join_comma_push(ts.take(q as int), ts[q as int]);
                assert(ts.take(q + 1) =~= ts.take(q as int).push(ts[q as int]));
            }
            if q > 0 {
                push_str(&mut d, ", ");
            }
            write_int(sq[q], &mut d);
            assert(d@ =~= o + "["@ + join_comma(ts.take(q + 1)));
        }
        assert(ts.take(m as int) =~= ts);
        push_str(&mut d, "]");
        assert(d@ =~= "sequence not strictly increasing: "@ + debug_list(ts));
        assert(rv.len() == n);
        assert(!(strictly_increasing(sq@) && sq@.len() == rv.len()));
        let ghost before = failures@;
        failures.push(d);
        assert(texts(failures@) =~= texts(before).push(d@));
    } else {
        assert(rv.len() == n);
        assert(sequence_failures(rv) =~= Seq::<Seq<char>>::empty());
        assert(texts(failures@) =~= texts(failures@) + Seq::<Seq<char>>::empty());
    }
}

/// The pair's identities differ.
pub open spec fn pair_differs(p: IdentityPair) -> bool {
    crate::types::opt_str_view(p.input_identity) != crate::types::opt_str_view(p.enforced_identity)
}

/// Indices of the pairs whose identities differ.
pub open spec fn differing(ps: Seq<IdentityPair>) -> Seq<int>
    decreases ps.len(),
{
    if ps.len() == 0 {
        Seq::empty()
    } else {
        let rest = differing(ps.drop_last());
        if pair_differs(ps.last()) {
            rest.push(ps.len() - 1)
        } else {
            rest
        }
    }
}

/// Failures of `expect.identities_equal` against the reported pairs.
pub open spec fn identity_failures(expect: JView, ids: Seq<IdentityPair>) -> Seq<Seq<char>> {
    match member(expect, "identities_equal"@) {
        Some(JView::Bool(want)) => if ids.len() == 0 {
            seq!["expect.identities_equal is set but harness did not report identities"@]
        } else {
            let diffs = differing(ids);
            if want && diffs.len() > 0 {
                seq!["identities_equal: expected input==enforced at every interception, but they differ at indices "@
                    + debug_list(diffs.map_values(|i: int| int_text(i)))]
            } else if !want && diffs.len() == 0 {
                seq!["identities_equal: expected input!=enforced at some interception (a transform was applied), but all pairs are equal"@]
            } else {
                Seq::empty()
            }
        },
        _ => Seq::empty(),
    }
}

fn opt_string_eq(a: &Option<String>, b: &Option<String>) -> (r: bool)
    ensures
        r == (crate::types::opt_str_view(*a) == crate::types::opt_str_view(*b)),
{
    match (a, b) {
        (Some(x), Some(y)) => str_eq(x.as_str(), y.as_str()),
        (None, None) => true,
        _ => false,
    }
}

fn push_failure(failures: &mut Vec<String>, d: String)
    ensures
        texts(final(failures)@) == texts(old(failures)@).push(d@),
{
    let ghost before = failures@;
    failures.push(d);
    assert(texts(failures@) =~= texts(before).push(d@));
}

fn assert_identities(expect: &JsonValue, ids: &Vec<IdentityPair>, failures: &mut Vec<String>)
    ensures
        texts(final(failures)@) == texts(old(failures)@) + identity_failures(expect@, ids@),
{
    let ghost f0 = texts(failures@);
    let want = match expect.get("identities_equal") {
        Some(JsonValue::Bool(b)) => *b,
        _ => {
            assert(f0 + Seq::<Seq<char>>::empty() =~= f0);
            return;
        },
    };
    if ids.len() == 0 {
        push_failure(failures, to_owned("expect.identities_equal is set but harness did not report identities"));
        return;
    }
    let mut diffs: Vec<usize> = Vec::new();
    let n = ids.len();
    for i in 0..n
        invariant
            n == ids@.len(),
            diffs@.map_values(|x: usize| x as int) == differing(ids@.take(i as int)),
    {
        assert(ids@.take(i + 1).drop_last() =~= ids@.take(i as int));
        if !opt_string_eq(&ids[i].input_identity, &ids[i].enforced_identity) {
            let ghost before = diffs@;
            diffs.push(i);
            assert(diffs@.map_values(|x: usize| x as int) =~= before.map_values(|x: usize| x as int).push(i as int));
        }
    }
    assert(ids@.take(n as int) =~= ids@);
    if want && diffs.len() > 0 {
        let mut d = to_owned("identities_equal: expected input==enforced at every interception, but they differ at indices ");
        let ghost ts = differing(ids@).map_values(|i: int| int_text(i));
        let ghost o = d@;
        push_str(&mut d, "[");
        let m = diffs.len();
        for q in 0..m
            invariant
                m == diffs@.len(),
                diffs@.map_values(|x: usize| x as int) == differing(ids@),
                ts == differing(ids@).map_values(|i: int| int_text(i)),
                d@ == o + "["@ + join_comma(ts.take(q as int)),
        {
            proof {
                lemma_join_comma_push(ts.take(q as int), ts[q as int]);
                assert(ts.take(q + 1) =~= ts.take(q as int).push(ts[q as int]));
                assert(differing(ids@)[q as int] == diffs@[q as int] as int);
            }
            if q > 0 {
                push_str(&mut d, ", ");
            }
            crate::jcs::write_decimal(diffs[q] as u64, &mut d);
            assert(d@ =~= o + "["@ + join_comma(ts.take(q + 1)));
        }
        assert(ts.take(m as int) =~= ts);
        push_str(&mut d, "]");
        assert(d@ =~= o + debug_list(ts));
        push_failure(failures, d);
    } else if !want && diffs.len() == 0 {
        push_failure(failures, to_owned(
            "identities_equal: expected input!=enforced at some interception (a transform was applied), but all pairs are equal",
        ));
    } else {
        assert(f0 + Seq::<Seq<char>>::empty() =~= f0);
    }
}

/// Failures for tools in `names` that some invocation names.
pub open spec fn not_invoked_failures(names: Seq<Seq<char>>, invs: Seq<JView>) -> Seq<Seq<char>>
    decreases names.len(),
{
    if names.len() == 0 {
        Seq::empty()
    } else {
        let rest = not_invoked_failures(names.drop_last(), invs);
        if exists|k: int| 0 <= k < invs.len() && view_str(member(#[trigger] invs[k], "name"@)) == Some(names.last()) {
            rest.push("tool "@ + debug_str(names.last()) + " was invoked but MUST NOT be"@)
        } else {
            rest
        }
    }
}

/// Failures of the run outcome, final output and tool invocations.
pub open spec fn run_failures(expect: JView, rr: RunRecord) -> Seq<Seq<char>> {
    let want = match view_str(Some(index_or_null(expect, "run_outcome"@))) {
        Some(s) => s,
        None => Seq::empty(),
    };
    let got_invs = crate::json::jv_seq(rr.tool_invocations@);
    let f1: Seq<Seq<char>> = if rr.outcome@ != want {
        seq!["run_outcome == "@ + debug_str(rr.outcome@) + ", want "@ + debug_str(want)]
    } else {
        Seq::empty()
    };
    let f2: Seq<Seq<char>> = match member(expect, "final_output"@) {
        Some(w) => if !json_eq(rr.final_output@, w) {
            seq!["final_output == "@ + crate::jcs::compact(rr.final_output@) + ", want "@ + crate::jcs::compact(w)]
        } else {
            Seq::empty()
        },
        None => Seq::empty(),
    };
    let f3: Seq<Seq<char>> = match member(expect, "tool_invocations"@) {
        Some(JView::Array(w)) => if !items_eq(got_invs, w) {
            seq!["tool_invocations == "@ + debug_list(debug_items(got_invs)) + ", want "@ + debug_list(debug_items(w))]
        } else {
            Seq::empty()
        },
        _ => Seq::empty(),
    };
    f1 + f2 + f3 + not_invoked_failures(string_items(member(expect, "tool_not_invoked"@)), got_invs)
}

fn write_debug_values(vs: &Vec<JsonValue>, out: &mut String)
    ensures
        final(out)@ == old(out)@ + debug_list(debug_items(crate::json::jv_seq(vs@))),
{
    let ghost texts = debug_items(crate::json::jv_seq(vs@));
    proof {
        lemma_debug_items(crate::json::jv_seq(vs@));
    }
    let ghost o = out@;
    push_str(out, "[");
    let n = vs.len();
    for i in 0..n
        invariant
            n == vs@.len(),
            texts == debug_items(crate::json::jv_seq(vs@)),
            texts.len() == n,
            forall|j: int| 0 <= j < n ==> #[trigger] texts[j] == debug_value(vs@[j]@),
            out@ == o + "["@ + join_comma(texts.take(i as int)),
    {
        proof {
            lemma_join_comma_push(texts.take(i as int), texts[i as int]);
            assert(texts.take(i + 1) =~= texts.take(i as int).push(texts[i as int]));
        }
        if i > 0 {
            push_str(out, ", ");
        }
        write_debug_value(&vs[i], out);
        assert(out@ =~= o + "["@ + join_comma(texts.take(i + 1)));
    }
    assert(texts.take(n as int) =~= texts);
    push_str(out, "]");
}

fn arrays_equal(a: &Vec<JsonValue>, b: &Vec<JsonValue>) -> (r: bool)
    ensures
        r == items_eq(crate::json::jv_seq(a@), crate::json::jv_seq(b@)),
{
    let x = JsonValue::Array(clone_values(a));
    let y = JsonValue::Array(clone_values(b));
    values_equal(&x, &y)
}

fn clone_values(v: &Vec<JsonValue>) -> (r: Vec<JsonValue>)
    ensures
        crate::json::jv_seq(r@) == crate::json::jv_seq(v@),
{
    let mut out: Vec<JsonValue> = Vec::new();
    let n = v.len();
    for i in 0..n
        invariant
            n == v@.len(),
            out@.len() == i,
            forall|j: int| 0 <= j < i ==> #[trigger] out@[j]@ == v@[j]@,
    {
        out.push(v[i].clone());
    }
    assert(out@.len() == v@.len());
    assert forall|j: int| 0 <= j < v@.len() implies #[trigger] crate::json::jv_seq(out@)[j] == crate::json::jv_seq(v@)[j] by {
        assert(out@[j]@ == v@[j]@);
    }
    assert(crate::json::jv_seq(out@) =~= crate::json::jv_seq(v@));
    out
}

fn tool_invoked(invs: &Vec<JsonValue>, name: &str) -> (r: bool)
    ensures
        r == exists|k: int| 0 <= k < crate::json::jv_seq(invs@).len() && view_str(member(#[trigger] crate::json::jv_seq(invs@)[k], "name"@)) == Some(name@),
{
    let ghost iv = crate::json::jv_seq(invs@);
    let n = invs.len();
    for i in 0..n
        invariant
            n == invs@.len(),
            iv == crate::json::jv_seq(invs@),
            forall|k: int| 0 <= k < i ==> view_str(member(#[trigger] iv[k], "name"@)) != Some(name@),
    {
        assert(iv[i as int] == invs@[i as int]@);
        if opt_str_eq(member_str(&invs[i], "name"), name) {
            assert(view_str(member(iv[i as int], "name"@)) == Some(name@));
            return true;
        }
    }
    false
}

fn assert_record(expect: &JsonValue, rr: &RunRecord, failures: &mut Vec<String>)
    ensures
        texts(final(failures)@) == texts(old(failures)@) + run_failures(expect@, *rr),
{
    let ghost f0 = texts(failures@);
    proof {
        reveal_strlit("");
    }
    let want: String = match get_or_null(expect, "run_outcome") {
        JsonValue::String(s) => s,
        _ => String::new(),
    };
    let ghost f1: Seq<Seq<char>> = if rr.outcome@ != want@ {
        seq!["run_outcome == "@ + debug_str(rr.outcome@) + ", want "@ + debug_str(want@)]
    } else {
        Seq::empty()
    };
    if !str_eq(rr.outcome.as_str(), want.as_str()) {
        let mut d = to_owned("run_outcome == ");
        write_debug_str(rr.outcome.as_str(), &mut d);
        push_str(&mut d, ", want ");
        write_debug_str(want.as_str(), &mut d);
        push_failure(failures, d);
    }
    assert(texts(failures@) =~= f0 + f1);
    let ghost g1 = texts(failures@);
    match expect.get("final_output") {
        Some(w) => {
            if !values_equal(&rr.final_output, w) {
                let mut d = to_owned("final_output == ");
                crate::jcs::write_compact(&rr.final_output, &mut d);
                push_str(&mut d, ", want ");
                crate::jcs::write_compact(w, &mut d);
                push_failure(failures, d);
            }
        },
        None => {},
    }
    let ghost g2 = texts(failures@);
    match expect.get("tool_invocations") {
        Some(JsonValue::Array(w)) => {
            if !arrays_equal(&rr.tool_invocations, w) {
                let mut d = to_owned("tool_invocations == ");
                write_debug_values(&rr.tool_invocations, &mut d);
                push_str(&mut d, ", want ");
                write_debug_values(w, &mut d);
                push_failure(failures, d);
            }
        },
        _ => {},
    }
    let ghost g3 = texts(failures@);
    let names = strings_of(expect.get("tool_not_invoked"));
    let ghost nv = texts(names@);
    let n = names.len();
    for i in 0..n
        invariant
            n == names@.len(),
            nv == texts(names@),
            texts(failures@) == g3 + not_invoked_failures(nv.take(i as int), crate::json::jv_seq(rr.tool_invocations@)),
    {
        assert(nv.take(i + 1).drop_last() =~= nv.take(i as int));
        if tool_invoked(&rr.tool_invocations, names[i].as_str()) {
            let mut d = to_owned("tool ");
            write_debug_str(names[i].as_str(), &mut d);
            push_str(&mut d, " was invoked but MUST NOT be");
            push_failure(failures, d);
        }
    }
    assert(nv.take(n as int) =~= nv);
    assert(texts(failures@) =~= f0 + run_failures(expect@, *rr).subrange(0, 0) + run_failures(expect@, *rr));
}

// ---- assertions: interceptions and records ---------------------------------------------------

/// The items of an array value.
pub open spec fn array_of(v: Option<JView>) -> Option<Seq<JView>> {
    match v {
        Some(JView::Array(a)) => Some(a),
        _ => None,
    }
}

/// The interception point an entry names, `""` when none.
pub open spec fn point_or_empty(v: JView) -> Seq<char> {
    match point_of(v) {
        Some(s) => s,
        None => Seq::empty(),
    }
}

/// The first index at or after `ri` whose value names point `want`.
pub open spec fn find_point(recs: Seq<JView>, want: Seq<char>, ri: int) -> Option<int>
    decreases recs.len() - ri,
{
    if ri < 0 || ri >= recs.len() {
        None
    } else if point_of(recs[ri]) == Some(want) {
        Some(ri)
    } else {
        find_point(recs, want, ri + 1)
    }
}

/// Failures of path predicates against `v`, each prefixed.
pub open spec fn pred_failures(prefix: Seq<char>, v: JView, preds: Entries) -> Seq<Seq<char>>
    decreases preds.len(),
{
    if preds.len() == 0 {
        Seq::empty()
    } else {
        let rest = pred_failures(prefix, v, preds.drop_last());
        let p = preds.last();
        match spec_lookup(v, p.0) {
            None => rest.push(prefix + ": path "@ + debug_str(p.0) + " did not resolve"@),
            Some(got) => if json_eq(got, p.1) {
                rest
            } else {
                rest.push(prefix + ": "@ + p.0 + " == "@ + crate::jcs::compact(got) + ", want "@ + crate::jcs::compact(p.1))
            },
        }
    }
}

/// Failures for paths that resolve in `v` but must be absent.
pub open spec fn absent_path_failures(prefix: Seq<char>, v: JView, paths: Seq<Seq<char>>) -> Seq<Seq<char>>
    decreases paths.len(),
{
    if paths.len() == 0 {
        Seq::empty()
    } else {
        let rest = absent_path_failures(prefix, v, paths.drop_last());
        match spec_lookup(v, paths.last()) {
            Some(got) => rest.push(prefix + ": "@ + paths.last() + " present ("@ + crate::jcs::compact(got) + "), want absent"@),
            None => rest,
        }
    }
}

/// The members of an object member, none when absent or not an object.
pub open spec fn preds_of(v: JView, k: Seq<char>) -> Entries {
    match obj_of(member(v, k)) {
        Some(es) => es,
        None => Seq::empty(),
    }
}

/// The prefix of a record failure.
pub open spec fn record_prefix(k: int, want: Seq<char>) -> Seq<char> {
    "record["@ + crate::jcs::decimal(k as nat) + "] "@ + want
}

/// Each expected record, matched forward by point from `ri`, checked
/// against its `assert` predicates and `absent` paths; the scan stops at
/// the first expected record not found.
pub open spec fn records_scan(expected: Seq<JView>, recs: Seq<JView>, ri: int) -> Seq<Seq<char>>
    decreases expected.len(),
{
    if expected.len() == 0 {
        Seq::empty()
    } else {
        let e = expected[0];
        let want = point_or_empty(e);
        match find_point(recs, want, ri) {
            None => seq!["expected record for "@ + debug_str(want) + " not found in order"@],
            Some(k) => {
                let prefix = record_prefix(k, want);
                pred_failures(prefix, recs[k], preds_of(e, "assert"@))
                    + absent_path_failures(prefix, recs[k], string_items(member(e, "absent"@)))
                    + records_scan(expected.drop_first(), recs, k + 1)
            },
        }
    }
}

/// Failures of `expect.records` against the reported records.
pub open spec fn records_failures(expect: JView, recs: Seq<JView>) -> Seq<Seq<char>> {
    match array_of(member(expect, "records"@)) {
        None => Seq::empty(),
        Some(exp) => if recs.len() == 0 {
            seq!["expect.records is set but harness did not report records"@]
        } else {
            records_scan(exp, recs, 0)
        },
    }
}

proof fn lemma_find_point(recs: Seq<JView>, want: Seq<char>, ri: int)
    requires
        0 <= ri,
    ensures
        find_point(recs, want, ri) matches Some(k) ==> ri <= k < recs.len() && point_of(recs[k]) == Some(want),
        find_point(recs, want, ri) is None ==> forall|k: int| ri <= k < recs.len() ==> point_of(#[trigger] recs[k]) != Some(want),
    decreases recs.len() - ri,
{
    if ri < recs.len() && point_of(recs[ri]) != Some(want) {
        lemma_find_point(recs, want, ri + 1);
    }
}

fn find_point_exec(recs: &Vec<JsonValue>, want: &str, ri: usize) -> (r: Option<usize>)
    ensures
        match find_point(crate::json::jv_seq(recs@), want@, ri as int) {
            Some(k) => r == Some(k as usize),
            None => r is None,
        },
{
    let ghost rv = crate::json::jv_seq(recs@);
    let mut k = ri;
    while k < recs.len()
        invariant
            ri <= k,
            rv == crate::json::jv_seq(recs@),
            find_point(rv, want@, ri as int) == find_point(rv, want@, k as int),
        decreases recs@.len() - k,
    {
        assert(rv[k as int] == recs@[k as int]@);
        if opt_str_eq(member_str(&recs[k], "interception_point"), want) {
            return Some(k);
        }
        k = k + 1;
    }
    None
}

fn check_preds(prefix: &String, v: &JsonValue, preds: Option<&JsonMap>, failures: &mut Vec<String>)
    ensures
        texts(final(failures)@) == texts(old(failures)@) + pred_failures(prefix@, v@, match preds {
            Some(m) => m@,
            None => Seq::empty(),
        }),
{
    let ghost f0 = texts(failures@);
    match preds {
        None => {
            assert(f0 + Seq::<Seq<char>>::empty() =~= f0);
        },
        Some(m) => {
            let ghost ps = m@;
            let n = m.entries.len();
            for i in 0..n
                invariant
                    n == m.entries@.len(),
                    ps == m@,
                    texts(failures@) == f0 + pred_failures(prefix@, v@, ps.take(i as int)),
            {
                assert(ps.take(i + 1).drop_last() =~= ps.take(i as int));
                assert(ps[i as int] == (m.entries@[i as int].0@, m.entries@[i as int].1@));
                let path = m.entries[i].0.as_str();
                let want = &m.entries[i].1;
                let ghost before = texts(failures@);
                match lookup(v, path) {
                    None => {
                        let mut d = prefix.clone();
                        push_str(&mut d, ": path ");
                        write_debug_str(path, &mut d);
                        push_str(&mut d, " did not resolve");
                        push_failure(failures, d);
                    },
                    Some(got) => {
                        if !values_equal(got, want) {
                            let mut d = prefix.clone();
                            push_str(&mut d, ": ");
                            push_str(&mut d, path);
                            push_str(&mut d, " == ");
                            crate::jcs::write_compact(got, &mut d);
                            push_str(&mut d, ", want ");
                            crate::jcs::write_compact(want, &mut d);
                            push_failure(failures, d);
                        }
                    },
                }
                assert(texts(failures@) =~= f0 + pred_failures(prefix@, v@, ps.take(i + 1)));
            }
            assert(ps.take(n as int) =~= ps);
        },
    }
}

fn check_absent_paths(prefix: &String, v: &JsonValue, paths: &Vec<String>, failures: &mut Vec<String>)
    ensures
        texts(final(failures)@) == texts(old(failures)@) + absent_path_failures(prefix@, v@, texts(paths@)),
{
    let ghost f0 = texts(failures@);
    let ghost pv = texts(paths@);
    let n = paths.len();
    for i in 0..n
        invariant
            n == paths@.len(),
            pv == texts(paths@),
            texts(failures@) == f0 + absent_path_failures(prefix@, v@, pv.take(i as int)),
    {
        assert(pv.take(i + 1).drop_last() =~= pv.take(i as int));
        match lookup(v, paths[i].as_str()) {
            Some(got) => {
                let mut d = prefix.clone();
                push_str(&mut d, ": ");
                push_str(&mut d, paths[i].as_str());
                push_str(&mut d, " present (");
                crate::jcs::write_compact(got, &mut d);
                push_str(&mut d, "), want absent");
                push_failure(failures, d);
            },
            None => {},
        }
        assert(texts(failures@) =~= f0 + absent_path_failures(prefix@, v@, pv.take(i + 1)));
    }
    assert(pv.take(n as int) =~= pv);
}

fn point_or_empty_exec(v: &JsonValue) -> (r: String)
    ensures
        r@ == point_or_empty(v@),
{
    match member_str(v, "interception_point") {
        Some(s) => to_owned(s),
        None => String::new(),
    }
}

#[verifier::rlimit(60)]
#[verifier::spinoff_prover]
fn assert_records(expect: &JsonValue, recs: &Vec<JsonValue>, failures: &mut Vec<String>)
    ensures
        texts(final(failures)@) == texts(old(failures)@) + records_failures(expect@, crate::json::jv_seq(recs@)),
{
    let ghost f0 = texts(failures@);
    let ghost rv = crate::json::jv_seq(recs@);
    let expected = match expect.get("records") {
        Some(JsonValue::Array(a)) => a,
        _ => {
            assert(f0 + Seq::<Seq<char>>::empty() =~= f0);
            return;
        },
    };
    if recs.len() == 0 {
        push_failure(failures, to_owned("expect.records is set but harness did not report records"));
        return;
    }
    let ghost ev = crate::json::jv_seq(expected@);
    let mut ri: usize = 0;
    let n = expected.len();
    let mut i: usize = 0;
    assert(ev.skip(0) =~= ev);
    while i < n
        invariant
            n == expected@.len(),
            ev == crate::json::jv_seq(expected@),
            rv == crate::json::jv_seq(recs@),
            i <= n,
            ri <= recs@.len(),
            records_failures(expect@, rv) == records_scan(ev, rv, 0),
            f0 == texts(old(failures)@),
            f0 + records_scan(ev, rv, 0) == texts(failures@) + records_scan(ev.skip(i as int), rv, ri as int),
        decreases n - i,
    {
        let ghost sk = ev.skip(i as int);
        assert(sk[0] == expected@[i as int]@);
        assert(sk.drop_first() =~= ev.skip(i + 1));
        let e = &expected[i];
        let want = point_or_empty_exec(e);
        proof {
            lemma_find_point(rv, want@, ri as int);
            assert(ev.len() == n);
            assert(sk.len() > 0);
            assert(point_or_empty(sk[0]) == want@);
        }
        let found = find_point_exec(recs, want.as_str(), ri);
        let ghost len = recs.len();
        proof {
            let fp = find_point(rv, want@, ri as int);
            assert(rv.len() == len);
            if let Some(kk) = fp {
                assert(ri <= kk < rv.len());
                assert(found == Some(kk as usize));
                assert((kk as usize) as int == kk);
            }
            assert(found matches Some(k) ==> fp == Some(k as int));
        }
        match found {
            None => {
                let mut d = to_owned("expected record for ");
                write_debug_str(want.as_str(), &mut d);
                push_str(&mut d, " not found in order");
                assert(records_scan(sk, rv, ri as int) == seq![d@]);
                let ghost before = texts(failures@);
                push_failure(failures, d);
                assert(texts(failures@) =~= before + seq![d@]);
                return;
            },
            Some(k) => {
                assert(find_point(rv, want@, ri as int) == Some(k as int));
                assert(k < recs@.len());
                let ghost before = texts(failures@);
                let mut prefix = to_owned("record[");
                crate::jcs::write_decimal(k as u64, &mut prefix);
                push_str(&mut prefix, "] ");
                push_str(&mut prefix, want.as_str());
                assert(prefix@ =~= record_prefix(k as int, want@));
                assert(rv[k as int] == recs@[k as int]@);
                let preds = match e.get("assert") {
                    Some(JsonValue::Object(m)) => Some(m),
                    _ => None,
                };
                check_preds(&prefix, &recs[k], preds, failures);
                let paths = strings_of(e.get("absent"));
                check_absent_paths(&prefix, &recs[k], &paths, failures);
                assert(records_scan(sk, rv, ri as int) == pred_failures(prefix@, rv[k as int], preds_of(e@, "assert"@))
                    + absent_path_failures(prefix@, rv[k as int], string_items(member(e@, "absent"@)))
                    + records_scan(ev.skip(i + 1), rv, k + 1));
                ri = k + 1;
            },
        }
        i = i + 1;
    }
    assert(ev.skip(n as int) =~= Seq::<JView>::empty());
}

/// The interception points the values name, in order (values without one
/// skipped).
pub open spec fn points(vs: Seq<JView>) -> Seq<Seq<char>>
    decreases vs.len(),
{
    if vs.len() == 0 {
        Seq::empty()
    } else {
        let rest = points(vs.drop_last());
        match point_of(vs.last()) {
            Some(p) => rest.push(p),
            None => rest,
        }
    }
}

/// Failures of one expected interception against the context recorded
/// for it: the required core (unless `context_must_validate` is false),
/// then its `context` predicates.
pub open spec fn pair_failures(e: JView, r: JView) -> Seq<Seq<char>> {
    let validate = match member(e, "context_must_validate"@) {
        Some(JView::Bool(b)) => b,
        _ => true,
    };
    (if validate {
        required_failures(r)
    } else {
        Seq::empty()
    }) + pred_failures(point_or_empty(e), r, preds_of(e, "context"@))
}

/// Failures of a sequence of (expected, recorded) index pairs.
pub open spec fn pairs_failures(expected: Seq<JView>, recorded: Seq<JView>, pairs: Seq<(int, int)>) -> Seq<Seq<char>>
    decreases pairs.len(),
{
    if pairs.len() == 0 {
        Seq::empty()
    } else {
        pairs_failures(expected, recorded, pairs.drop_last()) + pair_failures(expected[pairs.last().0], recorded[pairs.last().1])
    }
}

/// Each expected interception matched forward by point from `ri`; the
/// message when one is not found.
pub open spec fn scan_pairs(expected: Seq<JView>, recorded: Seq<JView>, ei: int, ri: int) -> Result<Seq<(int, int)>, Seq<char>>
    decreases expected.len() - ei,
{
    if ei < 0 || ei >= expected.len() {
        Ok(Seq::empty())
    } else {
        let want = point_or_empty(expected[ei]);
        match find_point(recorded, want, ri) {
            None => Err("expected interception point "@ + debug_str(want) + " not found in sequence"@),
            Some(k) => match scan_pairs(expected, recorded, ei + 1, k + 1) {
                Ok(rest) => Ok(seq![(ei, k)] + rest),
                Err(m) => Err(m),
            },
        }
    }
}

/// Index pairs `(i, i)` for `i` below `n`.
pub open spec fn diagonal(n: int) -> Seq<(int, int)> {
    Seq::new(if n < 0 { 0 } else { n as nat }, |i: int| (i, i))
}

/// Failures for points that were emitted but must be absent.
pub open spec fn absent_point_failures(names: Seq<Seq<char>>, rec_ips: Seq<Seq<char>>) -> Seq<Seq<char>>
    decreases names.len(),
{
    if names.len() == 0 {
        Seq::empty()
    } else {
        let rest = absent_point_failures(names.drop_last(), rec_ips);
        if rec_ips.contains(names.last()) {
            rest.push("interception point "@ + debug_str(names.last()) + " was emitted but MUST be absent"@)
        } else {
            rest
        }
    }
}

/// Failures of `expect.interceptions` against the recorded contexts: the
/// sequence of points (exactly, or as a subsequence when
/// `sequence_strict` is false), each matched context's checks, and the
/// points that must be absent. A sequence that does not match stops the
/// pass.
pub open spec fn interception_failures(expect: JView, recorded: Seq<JView>) -> Seq<Seq<char>> {
    let expected = match array_of(Some(index_or_null(expect, "interceptions"@))) {
        Some(a) => a,
        None => Seq::empty(),
    };
    let strict = match member(expect, "sequence_strict"@) {
        Some(JView::Bool(b)) => b,
        _ => true,
    };
    let rec_ips = points(recorded);
    let absent = absent_point_failures(string_items(member(expect, "interceptions_absent"@)), rec_ips);
    if strict {
        let exp_ips = points(expected);
        if rec_ips != exp_ips {
            seq!["interception sequence mismatch:\n  expected "@ + debug_strs(exp_ips) + "\n  got      "@ + debug_strs(rec_ips)]
        } else {
            let n = if expected.len() < recorded.len() { expected.len() as int } else { recorded.len() as int };
            pairs_failures(expected, recorded, diagonal(n)) + absent
        }
    } else {
        match scan_pairs(expected, recorded, 0, 0) {
            Err(m) => seq![m],
            Ok(pairs) => pairs_failures(expected, recorded, pairs) + absent,
        }
    }
}

fn points_of(vs: &Vec<JsonValue>) -> (r: Vec<String>)
    ensures
        texts(r@) == points(crate::json::jv_seq(vs@)),
{
    let ghost v = crate::json::jv_seq(vs@);
    let mut out: Vec<String> = Vec::new();
    let n = vs.len();
    for i in 0..n
        invariant
            n == vs@.len(),
            v == crate::json::jv_seq(vs@),
            texts(out@) == points(v.take(i as int)),
    {
        assert(v.take(i + 1).drop_last() =~= v.take(i as int));
        assert(v[i as int] == vs@[i as int]@);
        match member_str(&vs[i], "interception_point") {
            Some(p) => {
                let ghost before = out@;
                out.push(to_owned(p));
                assert(texts(out@) =~= texts(before).push(p@));
            },
            None => {},
        }
    }
    assert(v.take(n as int) =~= v);
    out
}

fn strings_equal(a: &Vec<String>, b: &Vec<String>) -> (r: bool)
    ensures
        r == (texts(a@) == texts(b@)),
{
    if a.len() != b.len() {
        assert(texts(a@).len() != texts(b@).len());
        return false;
    }
    let n = a.len();
    for i in 0..n
        invariant
            n == a@.len(),
            n == b@.len(),
            forall|j: int| 0 <= j < i ==> texts(a@)[j] == texts(b@)[j],
    {
        if !str_eq(a[i].as_str(), b[i].as_str()) {
            assert(texts(a@)[i as int] != texts(b@)[i as int]);
            return false;
        }
    }
    assert(texts(a@) =~= texts(b@));
    true
}

fn check_pair(e: &JsonValue, r: &JsonValue, failures: &mut Vec<String>)
    ensures
        texts(final(failures)@) == texts(old(failures)@) + pair_failures(e@, r@),
{
    let ghost f0 = texts(failures@);
    let validate = match e.get("context_must_validate") {
        Some(JsonValue::Bool(b)) => *b,
        _ => true,
    };
    if validate {
        validate_required(r, failures);
    } else {
        assert(f0 + Seq::<Seq<char>>::empty() =~= f0);
    }
    let ghost f1 = texts(failures@);
    let ip = point_or_empty_exec(e);
    let preds = match e.get("context") {
        Some(JsonValue::Object(m)) => Some(m),
        _ => None,
    };
    check_preds(&ip, r, preds, failures);
    assert(texts(failures@) =~= f0 + pair_failures(e@, r@));
}

fn check_absent_points(expect: &JsonValue, rec_ips: &Vec<String>, failures: &mut Vec<String>)
    ensures
        texts(final(failures)@) == texts(old(failures)@) + absent_point_failures(
            string_items(member(expect@, "interceptions_absent"@)),
            texts(rec_ips@),
        ),
{
    let ghost f0 = texts(failures@);
    let names = strings_of(expect.get("interceptions_absent"));
    let ghost nv = texts(names@);
    let n = names.len();
    for i in 0..n
        invariant
            n == names@.len(),
            nv == texts(names@),
            texts(failures@) == f0 + absent_point_failures(nv.take(i as int), texts(rec_ips@)),
    {
        assert(nv.take(i + 1).drop_last() =~= nv.take(i as int));
        if contains_string(rec_ips, names[i].as_str()) {
            let mut d = to_owned("interception point ");
            write_debug_str(names[i].as_str(), &mut d);
            push_str(&mut d, " was emitted but MUST be absent");
            let ghost before = texts(failures@);
            push_failure(failures, d);
            assert(texts(failures@) =~= f0 + absent_point_failures(nv.take(i + 1), texts(rec_ips@)));
        } else {
            assert(texts(failures@) =~= f0 + absent_point_failures(nv.take(i + 1), texts(rec_ips@)));
        }
    }
    assert(nv.take(n as int) =~= nv);
}

proof fn lemma_pairs_push(expected: Seq<JView>, recorded: Seq<JView>, pairs: Seq<(int, int)>, p: (int, int))
    ensures
        pairs_failures(expected, recorded, pairs.push(p)) == pairs_failures(expected, recorded, pairs) + pair_failures(expected[p.0], recorded[p.1]),
{
    assert(pairs.push(p).drop_last() =~= pairs);
}

/// Assert the interception sequence and the recorded contexts.
#[verifier::spinoff_prover]
fn assert_interceptions(expect: &JsonValue, recorded: &Vec<JsonValue>, failures: &mut Vec<String>)
    ensures
        texts(final(failures)@) == texts(old(failures)@) + interception_failures(expect@, crate::json::jv_seq(recorded@)),
{
    let ghost f0 = texts(failures@);
    let ghost rv = crate::json::jv_seq(recorded@);
    let empty: Vec<JsonValue> = Vec::new();
    let expected: &Vec<JsonValue> = match expect.get("interceptions") {
        Some(JsonValue::Array(a)) => a,
        _ => &empty,
    };
    let ghost ev = crate::json::jv_seq(expected@);
    assert(ev == (match array_of(Some(index_or_null(expect@, "interceptions"@))) {
        Some(a) => a,
        None => Seq::empty(),
    }));
    let strict = match expect.get("sequence_strict") {
        Some(JsonValue::Bool(b)) => *b,
        _ => true,
    };
    let rec_ips = points_of(recorded);
    if strict {
        let exp_ips = points_of(expected);
        if !strings_equal(&rec_ips, &exp_ips) {
            let mut d = to_owned("interception sequence mismatch:\n  expected ");
            write_debug_strs(&exp_ips, &mut d);
            push_str(&mut d, "\n  got      ");
            write_debug_strs(&rec_ips, &mut d);
            let ghost before = texts(failures@);
            push_failure(failures, d);
            assert(texts(failures@) =~= before + seq![d@]);
            return;
        }
        let n = if expected.len() < recorded.len() { expected.len() } else { recorded.len() };
        for i in 0..n
            invariant
                n <= expected@.len(),
                n <= recorded@.len(),
                ev == crate::json::jv_seq(expected@),
                rv == crate::json::jv_seq(recorded@),
                texts(failures@) == f0 + pairs_failures(ev, rv, diagonal(i as int)),
        {
            proof {
                assert(diagonal(i + 1) =~= diagonal(i as int).push((i as int, i as int)));
                lemma_pairs_push(ev, rv, diagonal(i as int), (i as int, i as int));
                assert(ev[i as int] == expected@[i as int]@);
                assert(rv[i as int] == recorded@[i as int]@);
            }
            check_pair(&expected[i], &recorded[i], failures);
        }
        let ghost g = texts(failures@);
        check_absent_points(expect, &rec_ips, failures);
        assert(texts(failures@) =~= f0 + interception_failures(expect@, rv));
    } else {
        let mut pairs: Vec<(usize, usize)> = Vec::new();
        let mut ri: usize = 0;
        let n = expected.len();
        let mut ei: usize = 0;
        let ghost absent = absent_point_failures(string_items(member(expect@, "interceptions_absent"@)), texts(rec_ips@));
        assert(interception_failures(expect@, rv) == (match scan_pairs(ev, rv, 0, 0) {
            Err(m) => seq![m],
            Ok(ps) => pairs_failures(ev, rv, ps) + absent,
        }));
        assert(pairs@.map_values(|p: (usize, usize)| (p.0 as int, p.1 as int)) =~= Seq::<(int, int)>::empty());
        while ei < n
            invariant
                interception_failures(expect@, rv) == (match scan_pairs(ev, rv, 0, 0) {
                    Err(m) => seq![m],
                    Ok(ps) => pairs_failures(ev, rv, ps) + absent,
                }),
                absent == absent_point_failures(string_items(member(expect@, "interceptions_absent"@)), texts(rec_ips@)),
                f0 == texts(old(failures)@),
                n == expected@.len(),
                ev == crate::json::jv_seq(expected@),
                rv == crate::json::jv_seq(recorded@),
                ei <= n,
                ri <= recorded@.len(),
                texts(failures@) == f0,
                forall|q: int| 0 <= q < pairs@.len() ==> #[trigger] pairs@[q].0 < n && pairs@[q].1 < recorded@.len(),
                scan_pairs(ev, rv, 0, 0) == (match scan_pairs(ev, rv, ei as int, ri as int) {
                    Ok(rest) => Ok(pairs@.map_values(|p: (usize, usize)| (p.0 as int, p.1 as int)) + rest),
                    Err(m) => Err::<Seq<(int, int)>, Seq<char>>(m),
                }),
            decreases n - ei,
        {
            let want = point_or_empty_exec(&expected[ei]);
            assert(ev[ei as int] == expected@[ei as int]@);
            let found = find_point_exec(recorded, want.as_str(), ri);
            let ghost len = recorded.len();
            proof {
                lemma_find_point(rv, want@, ri as int);
                let fp = find_point(rv, want@, ri as int);
                assert(rv.len() == len);
                if let Some(kk) = fp {
                    assert((kk as usize) as int == kk);
                }
                assert(found matches Some(k) ==> fp == Some(k as int));
            }
            match found {
                None => {
                    let mut d = to_owned("expected interception point ");
                    write_debug_str(want.as_str(), &mut d);
                    push_str(&mut d, " not found in sequence");
                    assert(ev.len() == n);
                    assert(scan_pairs(ev, rv, ei as int, ri as int) == Err::<Seq<(int, int)>, Seq<char>>(d@));
                    let ghost before = texts(failures@);
                    push_failure(failures, d);
                    assert(texts(failures@) =~= before + seq![d@]);
                    return;
                },
                Some(k) => {
                    let ghost before = pairs@;
                    pairs.push((ei, k));
                    proof {
                        assert forall|q: int| 0 <= q < pairs@.len() implies #[trigger] pairs@[q].0 < n && pairs@[q].1 < recorded@.len() by {
                            if q < before.len() {
                                assert(pairs@[q] == before[q]);
                            }
                        }
                        let mp = |p: (usize, usize)| (p.0 as int, p.1 as int);
                        assert(pairs@.map_values(mp) =~= before.map_values(mp).push((ei as int, k as int)));
                        match scan_pairs(ev, rv, ei + 1, k + 1) {
                            Ok(rest) => {
                                assert(before.map_values(mp) + (seq![(ei as int, k as int)] + rest) =~= pairs@.map_values(mp) + rest);
                            },
                            Err(_) => {},
                        }
                    }
                    ri = k + 1;
                },
            }
            ei = ei + 1;
        }
        let ghost all = pairs@.map_values(|p: (usize, usize)| (p.0 as int, p.1 as int));
        assert(all + Seq::<(int, int)>::empty() =~= all);
        assert(ev.len() == n);
        assert(scan_pairs(ev, rv, n as int, ri as int) == Ok::<Seq<(int, int)>, Seq<char>>(Seq::empty()));
        let m = pairs.len();
        for q in 0..m
            invariant
                interception_failures(expect@, rv) == pairs_failures(ev, rv, all) + absent,
                absent == absent_point_failures(string_items(member(expect@, "interceptions_absent"@)), texts(rec_ips@)),
                f0 == texts(old(failures)@),
                m == pairs@.len(),
                n == expected@.len(),
                ev == crate::json::jv_seq(expected@),
                rv == crate::json::jv_seq(recorded@),
                all == pairs@.map_values(|p: (usize, usize)| (p.0 as int, p.1 as int)),
                forall|q2: int| 0 <= q2 < pairs@.len() ==> #[trigger] pairs@[q2].0 < n && pairs@[q2].1 < recorded@.len(),
                texts(failures@) == f0 + pairs_failures(ev, rv, all.take(q as int)),
        {
            let (a, b) = pairs[q];
            proof {
                assert(pairs@[q as int].0 < n && pairs@[q as int].1 < recorded@.len());
                assert(all.take(q + 1) =~= all.take(q as int).push(all[q as int]));
                lemma_pairs_push(ev, rv, all.take(q as int), all[q as int]);
                assert(ev[a as int] == expected@[a as int]@);
                assert(rv[b as int] == recorded@[b as int]@);
            }
            check_pair(&expected[a], &recorded[b], failures);
        }
        assert(all.take(m as int) =~= all);
        check_absent_points(expect, &rec_ips, failures);
        assert(texts(failures@) =~= f0 + interception_failures(expect@, rv));
    }
}

// ---- the assertion pass --------------------------------------------------------------------

/// A string member, `""` when absent or not a string.
pub open spec fn str_or_empty(v: JView, k: Seq<char>) -> Seq<char> {
    match view_str(member(v, k)) {
        Some(s) => s,
        None => Seq::empty(),
    }
}

/// Every failure of one vector run, in the order the checks run:
/// interceptions, run outcome, records, sequence, identities.
pub open spec fn vector_failures(vector: JView, recorded: Seq<JView>, rr: RunRecord) -> Seq<Seq<char>> {
    let expect = index_or_null(vector, "expect"@);
    interception_failures(expect, recorded) + run_failures(expect, rr) + records_failures(expect, crate::json::jv_seq(rr.records@))
        + sequence_failures(recorded) + identity_failures(expect, rr.identities@)
}

pub(crate) fn str_member_or_empty(v: &JsonValue, k: &str) -> (r: String)
    ensures
        r@ == str_or_empty(v@, k@),
{
    match member_str(v, k) {
        Some(s) => to_owned(s),
        None => String::new(),
    }
}

/// Run the assertion pass for one vector. `recorded` is the list of
/// contexts the harness passed to the interceptor, in order; the status is
/// `"pass"` exactly when no check failed.
pub fn assert_vector(vector: &JsonValue, recorded: &Vec<JsonValue>, rr: &RunRecord) -> (r: VectorResult)
    ensures
        r.id@ == str_or_empty(vector@, "id"@),
        r.title@ == str_or_empty(vector@, "title"@),
        r.part@ == str_or_empty(vector@, "part"@),
        texts(r.failures@) == vector_failures(vector@, crate::json::jv_seq(recorded@), *rr),
        r.status@ == (if r.failures@.len() == 0 {
            "pass"@
        } else {
            "fail"@
        }),
        r.detail@.len() == 0,
{
    let id = str_member_or_empty(vector, "id");
    let title = str_member_or_empty(vector, "title");
    let part = str_member_or_empty(vector, "part");
    let expect = get_or_null(vector, "expect");
    let mut failures: Vec<String> = Vec::new();
    assert(texts(failures@) =~= Seq::<Seq<char>>::empty());
    assert_interceptions(&expect, recorded, &mut failures);
    assert_record(&expect, rr, &mut failures);
    assert_records(&expect, &rr.records, &mut failures);
    assert_sequence(recorded, &mut failures);
    assert_identities(&expect, &rr.identities, &mut failures);
    assert(texts(failures@) =~= vector_failures(vector@, crate::json::jv_seq(recorded@), *rr));
    let status: &'static str = if failures.len() == 0 { "pass" } else { "fail" };
    VectorResult { id, title, part, status, detail: String::new(), failures }
}
} // verus!
