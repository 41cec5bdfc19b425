//! The JSON data model the library works on.
//!
//! Objects keep their members in a `Vec` of key/value pairs; a lookup
//! finds the first member with the key, and an insert replaces that
//! member in place or appends a new one. A number is an unsigned or a
//! negative integer, or a non-integral value carried by its canonical
//! (ECMA-262 `Number::toString`) text.
//!
//! Contracts speak of the mathematical view [`JView`] of a value.
use vstd::prelude::*;

verus! {

/// A JSON number.
#[derive(Debug, PartialEq)]
pub enum JsonNumber {
    /// An integer `>= 0`.
    PosInt(u64),
    /// An integer `< 0`.
    NegInt(i64),
    /// Any other finite number, by its canonical text.
    Float(String),
}

/// A JSON value.
#[derive(Debug, PartialEq)]
pub enum JsonValue {
    Null,
    Bool(bool),
    Number(JsonNumber),
    String(String),
    Array(Vec<JsonValue>),
    Object(JsonMap),
}

/// A JSON object: its members. An object map keeps its keys unique and
/// ascending ([`keys_ascending`]); [`JsonMap::new`], [`JsonMap::insert`] and
/// [`JsonMap::remove`] keep that shape.
#[derive(Debug, PartialEq)]
pub struct JsonMap {
    pub entries: Vec<(String, JsonValue)>,
}

/// Mathematical view of a number.
pub enum JNum {
    PosInt(u64),
    NegInt(i64),
    Float(Seq<char>),
}

/// Mathematical view of a JSON value.
pub enum JView {
    Null,
    Bool(bool),
    Number(JNum),
    Str(Seq<char>),
    Array(Seq<JView>),
    Object(Seq<(Seq<char>, JView)>),
}

/// Members of an object view.
pub type Entries = Seq<(Seq<char>, JView)>;

impl View for JsonNumber {
    type V = JNum;

    open spec fn view(&self) -> JNum {
        match self {
            JsonNumber::PosInt(u) => JNum::PosInt(*u),
            JsonNumber::NegInt(i) => JNum::NegInt(*i),
            JsonNumber::Float(s) => JNum::Float(s@),
        }
    }
}

impl JsonValue {
    /// The view of `self`.
    pub open spec fn jv(self) -> JView
        decreases self,
    {
        match self {
            JsonValue::Null => JView::Null,
            JsonValue::Bool(b) => JView::Bool(b),
            JsonValue::Number(n) => JView::Number(n@),
            JsonValue::String(s) => JView::Str(s@),
            JsonValue::Array(items) => {
                proof {
                    assert(decreases_to!(items => items@));
                }
                JView::Array(jv_seq(items@))
            },
            JsonValue::Object(m) => {
                proof {
                    assert(decreases_to!(m.entries => m.entries@));
                }
                JView::Object(jv_entries(m.entries@))
            },
        }
    }
}

impl View for JsonValue {
    type V = JView;

    open spec fn view(&self) -> JView {
        self.jv()
    }
}

impl View for JsonMap {
    type V = Entries;

    open spec fn view(&self) -> Entries {
        jv_entries(self.entries@)
    }
}

/// Views of a sequence of values.
pub open spec fn jv_seq(s: Seq<JsonValue>) -> Seq<JView>
    decreases s,
{
    if s.len() == 0 {
        Seq::empty()
    } else {
        proof {
            assert(decreases_to!(s => s[s.len() - 1]));
            assert(decreases_to!(s => s.drop_last()));
        }
        jv_seq(s.drop_last()).push(s[s.len() - 1].jv())
    }
}

/// Views of a sequence of members.
pub open spec fn jv_entries(s: Seq<(String, JsonValue)>) -> Entries
    decreases s,
{
    if s.len() == 0 {
        Seq::empty()
    } else {
        proof {
            assert(decreases_to!(s => s[s.len() - 1]));
            assert(decreases_to!(s => s.drop_last()));
        }
        jv_entries(s.drop_last()).push((s[s.len() - 1].0@, s[s.len() - 1].1.jv()))
    }
}

/// `jv_seq` maps each element to its view.
pub broadcast proof fn lemma_jv_seq(s: Seq<JsonValue>)
    ensures
        #![trigger jv_seq(s)]
        jv_seq(s).len() == s.len(),
        forall|i: int| 0 <= i < s.len() ==> #[trigger] jv_seq(s)[i] == s[i].jv(),
    decreases s.len(),
{
    if s.len() > 0 {
        lemma_jv_seq(s.drop_last());
    }
}

/// `jv_entries` maps each member to its view.
pub broadcast proof fn lemma_jv_entries(s: Seq<(String, JsonValue)>)
    ensures
        #![trigger jv_entries(s)]
        jv_entries(s).len() == s.len(),
        forall|i: int| 0 <= i < s.len() ==> #[trigger] jv_entries(s)[i] == (s[i].0@, s[i].1.jv()),
    decreases s.len(),
{
    if s.len() > 0 {
        lemma_jv_entries(s.drop_last());
    }
}

pub broadcast group group_json_view {
    lemma_jv_seq,
    lemma_jv_entries,
}

// ---- object views --------------------------------------------------------

/// Member `i` of `es` has key `key`.
pub open spec fn key_at(es: Entries, i: int, key: Seq<char>) -> bool {
    0 <= i < es.len() && es[i].0 == key
}

/// Index of the first member with key `key`, or `-1`.
pub open spec fn first_index(es: Entries, key: Seq<char>) -> int {
    if exists|i: int| #[trigger] key_at(es, i, key) && forall|j: int| 0 <= j < i ==> !key_at(es, j, key) {
        choose|i: int| #[trigger] key_at(es, i, key) && forall|j: int| 0 <= j < i ==> !key_at(es, j, key)
    } else {
        -1
    }
}

/// The value of the first member with key `key`.
pub open spec fn map_get(es: Entries, key: Seq<char>) -> Option<JView> {
    let i = first_index(es, key);
    if i >= 0 {
        Some(es[i].1)
    } else {
        None
    }
}

/// `a` orders strictly before `b`, character by character: the order of
/// `String` keys (for UTF-8 text, the order of its bytes).
pub open spec fn key_less(a: Seq<char>, b: Seq<char>) -> bool
    decreases a.len(),
{
    if b.len() == 0 {
        false
    } else if a.len() == 0 {
        true
    } else if a[0] != b[0] {
        (a[0] as u32) < (b[0] as u32)
    } else {
        key_less(a.skip(1), b.skip(1))
    }
}

/// The members' keys are strictly ascending (so also distinct): the shape
/// of an object map.
pub open spec fn keys_ascending(es: Entries) -> bool {
    forall|i: int, j: int| 0 <= i < j < es.len() ==> key_less(#[trigger] es[i].0, #[trigger] es[j].0)
}

/// Where a new key goes: before the first member whose key it precedes.
pub open spec fn insert_at(es: Entries, key: Seq<char>) -> int
    decreases es.len(),
{
    if es.len() == 0 {
        0
    } else if key_less(key, es[0].0) {
        0
    } else {
        1 + insert_at(es.drop_first(), key)
    }
}

/// The members after setting `key` to `value`: the member with that key
/// takes the value, or a new member goes in key order.
pub open spec fn map_insert(es: Entries, key: Seq<char>, value: JView) -> Entries {
    let i = first_index(es, key);
    if i >= 0 {
        es.update(i, (key, value))
    } else {
        es.insert(insert_at(es, key), (key, value))
    }
}

/// The members after removing `key`.
pub open spec fn map_remove(es: Entries, key: Seq<char>) -> Entries {
    let i = first_index(es, key);
    if i >= 0 {
        es.remove(i)
    } else {
        es
    }
}

/// Member `key` of `v` when `v` is an object.
pub open spec fn member(v: JView, key: Seq<char>) -> Option<JView> {
    match v {
        JView::Object(es) => map_get(es, key),
        _ => None,
    }
}

/// The string of `v`, when it is one.
pub open spec fn view_str(v: Option<JView>) -> Option<Seq<char>> {
    match v {
        Some(JView::Str(s)) => Some(s),
        _ => None,
    }
}

/// The value of `v` as an `i64`, when it is an integer in range.
pub open spec fn view_i64(v: Option<JView>) -> Option<i64> {
    match v {
        Some(JView::Number(JNum::PosInt(u))) => if u <= 0x7fff_ffff_ffff_ffff {
            Some(u as i64)
        } else {
            None
        },
        Some(JView::Number(JNum::NegInt(i))) => Some(i),
        _ => None,
    }
}

/// `first_index` is the least index holding `key`, or `-1` when none does.
pub proof fn lemma_first_index(es: Entries, key: Seq<char>)
    ensures
        -1 <= first_index(es, key) < es.len(),
        first_index(es, key) >= 0 ==> key_at(es, first_index(es, key), key),
        forall|j: int| 0 <= j < first_index(es, key) ==> !key_at(es, j, key),
        first_index(es, key) < 0 ==> forall|j: int| 0 <= j < es.len() ==> !key_at(es, j, key),
{
    if exists|i: int| #[trigger] key_at(es, i, key) {
        let w = choose|i: int| #[trigger] key_at(es, i, key);
        lemma_least_witness(es, key, w);
    }
}

proof fn lemma_least_witness(es: Entries, key: Seq<char>, w: int)
    requires
        key_at(es, w, key),
    ensures
        exists|i: int| #[trigger] key_at(es, i, key) && forall|j: int| 0 <= j < i ==> !key_at(es, j, key),
    decreases w,
{
    if exists|j: int| 0 <= j < w && key_at(es, j, key) {
        let j = choose|j: int| 0 <= j < w && key_at(es, j, key);
        lemma_least_witness(es, key, j);
    } else {
        assert(key_at(es, w, key) && forall|j: int| 0 <= j < w ==> !key_at(es, j, key));
    }
}

/// When no member before `i` has key `key` and member `i` has it, `i` is
/// the first index.
pub proof fn lemma_first_index_at(es: Entries, key: Seq<char>, i: int)
    requires
        key_at(es, i, key),
        forall|j: int| 0 <= j < i ==> !key_at(es, j, key),
    ensures
        first_index(es, key) == i,
{
    lemma_first_index(es, key);
    let f = first_index(es, key);
    if f < i {
        assert(!key_at(es, f, key));
    } else if f > i {
        assert(!key_at(es, i, key));
    }
}

/// `insert_at` is the first index whose key `key` precedes, or the length.
pub proof fn lemma_insert_at(es: Entries, key: Seq<char>)
    ensures
        0 <= insert_at(es, key) <= es.len(),
        forall|j: int| 0 <= j < insert_at(es, key) ==> !key_less(key, #[trigger] es[j].0),
        insert_at(es, key) < es.len() ==> key_less(key, es[insert_at(es, key)].0),
    decreases es.len(),
{
    if es.len() > 0 && !key_less(key, es[0].0) {
        let t = es.drop_first();
        lemma_insert_at(t, key);
        assert forall|j: int| 0 <= j < insert_at(es, key) implies !key_less(key, #[trigger] es[j].0) by {
            if j > 0 {
                assert(es[j] == t[j - 1]);
            }
        }
        if insert_at(es, key) < es.len() {
            assert(es[insert_at(es, key)] == t[insert_at(t, key)]);
        }
    }
}

/// After `map_insert`, the inserted key finds the new value and every other
/// key finds what it found before.
pub proof fn lemma_map_insert(es: Entries, key: Seq<char>, value: JView, other: Seq<char>)
    ensures
        map_get(map_insert(es, key, value), key) == Some(value),
        other != key ==> map_get(map_insert(es, key, value), other) == map_get(es, other),
        first_index(map_insert(es, key, value), key) >= 0,
{
    let e2 = map_insert(es, key, value);
    lemma_first_index(es, key);
    lemma_first_index(es, other);
    lemma_first_index(e2, key);
    lemma_first_index(e2, other);
    let i = first_index(es, key);
    if i >= 0 {
        assert(key_at(e2, i, key));
        let i2 = first_index(e2, key);
        if i2 < i {
            assert(key_at(es, i2, key));
        }
        if other != key {
            let o = first_index(es, other);
            let o2 = first_index(e2, other);
            if o >= 0 {
                assert(key_at(e2, o, other));
                if o2 < o {
                    assert(key_at(es, o2, other));
                }
            } else if o2 >= 0 {
                assert(key_at(es, o2, other));
            }
        }
    } else {
        lemma_insert_at(es, key);
        let p = insert_at(es, key);
        assert(e2 == es.insert(p, (key, value)));
        assert(key_at(e2, p, key));
        assert forall|j: int| 0 <= j < p implies !key_at(e2, j, key) by {
            assert(e2[j] == es[j]);
            assert(!key_at(es, j, key));
        }
        lemma_first_index_at(e2, key, p);
        if other != key {
            let o = first_index(es, other);
            if o >= 0 {
                let o2 = if o < p { o } else { o + 1 };
                assert(e2[o2] == es[o]);
                assert forall|j: int| 0 <= j < o2 implies !key_at(e2, j, other) by {
                    if j < p {
                        assert(e2[j] == es[j]);
                        assert(!key_at(es, j, other));
                    } else if j > p {
                        assert(e2[j] == es[j - 1]);
                        assert(!key_at(es, j - 1, other));
                    } else {
                        assert(e2[j] == (key, value));
                    }
                }
                lemma_first_index_at(e2, other, o2);
            } else {
                let o2 = first_index(e2, other);
                if o2 >= 0 {
                    if o2 < p {
                        assert(e2[o2] == es[o2]);
                        assert(key_at(es, o2, other));
                    } else if o2 > p {
                        assert(e2[o2] == es[o2 - 1]);
                        assert(key_at(es, o2 - 1, other));
                    }
                }
            }
        }
    }
}

/// No key precedes itself.
pub proof fn lemma_key_less_irreflexive(a: Seq<char>)
    ensures
        !key_less(a, a),
    decreases a.len(),
{
    if a.len() > 0 {
        lemma_key_less_irreflexive(a.skip(1));
    }
}

/// The key order is transitive.
pub proof fn lemma_key_less_transitive(a: Seq<char>, b: Seq<char>, c: Seq<char>)
    requires
        key_less(a, b),
        key_less(b, c),
    ensures
        key_less(a, c),
    decreases a.len(),
{
    if a.len() > 0 && a[0] == b[0] && b[0] == c[0] {
        lemma_key_less_transitive(a.skip(1), b.skip(1), c.skip(1));
    }
}

/// Distinct keys are ordered one way or the other.
pub proof fn lemma_key_less_total(a: Seq<char>, b: Seq<char>)
    requires
        a != b,
    ensures
        key_less(a, b) || key_less(b, a),
    decreases a.len(),
{
    if a.len() > 0 && b.len() > 0 {
        if a[0] == b[0] {
            if a.skip(1) == b.skip(1) {
                assert(a =~= seq![a[0]] + a.skip(1));
                assert(b =~= seq![b[0]] + b.skip(1));
            }
            lemma_key_less_total(a.skip(1), b.skip(1));
        } else {
            vstd::utf8::char_u32_cast(a[0], a[0] as u32);
            vstd::utf8::char_u32_cast(b[0], b[0] as u32);
        }
    } else if a.len() == 0 && b.len() == 0 {
        assert(a =~= b);
    }
}

/// Ascending keys are distinct.
pub proof fn lemma_ascending_distinct(es: Entries)
    requires
        keys_ascending(es),
    ensures
        forall|i: int, j: int| 0 <= i < j < es.len() ==> #[trigger] es[i].0 != #[trigger] es[j].0,
{
    assert forall|i: int, j: int| 0 <= i < j < es.len() implies #[trigger] es[i].0 != #[trigger] es[j].0 by {
        lemma_key_less_irreflexive(es[i].0);
    }
}

/// Setting a member keeps the keys ascending.
pub proof fn lemma_map_insert_ascending(es: Entries, key: Seq<char>, value: JView)
    requires
        keys_ascending(es),
    ensures
        keys_ascending(map_insert(es, key, value)),
{
    lemma_first_index(es, key);
    let e2 = map_insert(es, key, value);
    if first_index(es, key) >= 0 {
        let f = first_index(es, key);
        assert forall|i: int, j: int| 0 <= i < j < e2.len() implies key_less(#[trigger] e2[i].0, #[trigger] e2[j].0) by {
            assert(e2[i].0 == es[i].0);
            assert(e2[j].0 == es[j].0);
        }
    } else {
        lemma_insert_at(es, key);
        let p = insert_at(es, key);
        assert forall|i: int, j: int| 0 <= i < j < e2.len() implies key_less(#[trigger] e2[i].0, #[trigger] e2[j].0) by {
            let a = if i < p { i } else { i - 1 };
            let b = if j < p { j } else { j - 1 };
            if i == p {
                assert(e2[j] == es[b]);
                lemma_key_less_irreflexive(key);
                if b > p {
                    lemma_key_less_transitive(key, es[p].0, es[b].0);
                }
            } else if j == p {
                assert(e2[i] == es[a]);
                assert(!key_at(es, a, key));
                assert(!key_less(key, es[a].0));
                lemma_key_less_total(es[a].0, key);
            } else {
                assert(e2[i] == es[a]);
                assert(e2[j] == es[b]);
            }
        }
    }
}

/// Removing a member keeps the keys ascending.
pub proof fn lemma_map_remove_ascending(es: Entries, key: Seq<char>)
    requires
        keys_ascending(es),
    ensures
        keys_ascending(map_remove(es, key)),
{
    lemma_first_index(es, key);
    let e2 = map_remove(es, key);
    if first_index(es, key) >= 0 {
        let f = first_index(es, key);
        assert forall|i: int, j: int| 0 <= i < j < e2.len() implies key_less(#[trigger] e2[i].0, #[trigger] e2[j].0) by {
            let a = if i < f { i } else { i + 1 };
            let b = if j < f { j } else { j + 1 };
            assert(e2[i] == es[a]);
            assert(e2[j] == es[b]);
        }
    }
}

impl JsonNumber {
    /// A copy with the same view.
    pub fn copy(&self) -> (r: Self)
        ensures
            r@ == self@,
    {
        match self {
            JsonNumber::PosInt(u) => JsonNumber::PosInt(*u),
            JsonNumber::NegInt(i) => JsonNumber::NegInt(*i),
            JsonNumber::Float(s) => JsonNumber::Float(s.clone()),
        }
    }
}

impl Clone for JsonNumber {
    fn clone(&self) -> (r: Self)
        ensures
            r@ == self@,
    {
        self.copy()
    }
}

impl JsonValue {
    /// A deep copy with the same view.
    pub fn deep_clone(&self) -> (r: Self)
        ensures
            r@ == self@,
        decreases self,
    {
        broadcast use group_json_view;

        match self {
            JsonValue::Null => JsonValue::Null,
            JsonValue::Bool(b) => JsonValue::Bool(*b),
            JsonValue::Number(n) => JsonValue::Number(n.copy()),
            JsonValue::String(s) => JsonValue::String(s.clone()),
            JsonValue::Array(items) => {
                let mut out: Vec<JsonValue> = Vec::new();
                let n = items.len();
                for i in 0..n
                    invariant
                        n == items@.len(),
                        *self == JsonValue::Array(*items),
                        out@.len() == i,
                        forall|j: int| 0 <= j < i ==> out@[j]@ == items@[j]@,
                {
                    proof {
                        assert(*self == JsonValue::Array(*items));
                        assert(decreases_to!(*self => (*self)->Array_0));
                        assert(decreases_to!(*items => items[i as int]));
                    }
                    out.push(items[i].deep_clone());
                }
                assert(jv_seq(out@) =~= jv_seq(items@));
                JsonValue::Array(out)
            },
            JsonValue::Object(m) => {
                let mut out: Vec<(String, JsonValue)> = Vec::new();
                let n = m.entries.len();
                for i in 0..n
                    invariant
                        n == m.entries@.len(),
                        *self == JsonValue::Object(*m),
                        out@.len() == i,
                        forall|j: int| 0 <= j < i ==> out@[j].0@ == m.entries@[j].0@ && out@[j].1@ == m.entries@[j].1@,
                {
                    proof {
                        assert(*self == JsonValue::Object(*m));
                        assert(decreases_to!(*self => (*self)->Object_0));
                        assert(decreases_to!(*m => m.entries));
                        assert(decreases_to!(m.entries => m.entries[i as int]));
                        assert(decreases_to!(m.entries[i as int] => m.entries[i as int].1));
                    }
                    let k = m.entries[i].0.clone();
                    let v = m.entries[i].1.deep_clone();
                    out.push((k, v));
                }
                assert(jv_entries(out@) =~= jv_entries(m.entries@));
                JsonValue::Object(JsonMap { entries: out })
            },
        }
    }

    /// The string, when `self` is one.
    pub fn as_str(&self) -> (r: Option<&str>)
        ensures
            match r {
                Some(s) => view_str(Some(self@)) == Some(s@),
                None => view_str(Some(self@)) is None,
            },
    {
        match self {
            JsonValue::String(s) => Some(s.as_str()),
            _ => None,
        }
    }

    /// The boolean, when `self` is one.
    pub fn as_bool(&self) -> (r: Option<bool>)
        ensures
            r == (match self@ {
                JView::Bool(b) => Some(b),
                _ => None,
            }),
    {
        match self {
            JsonValue::Bool(b) => Some(*b),
            _ => None,
        }
    }

    /// The integer as an `i64`, when `self` is an integer in `i64` range.
    pub fn as_i64(&self) -> (r: Option<i64>)
        ensures
            r == view_i64(Some(self@)),
    {
        match self {
            JsonValue::Number(JsonNumber::PosInt(u)) => {
                if *u <= 0x7fff_ffff_ffff_ffff {
                    Some(*u as i64)
                } else {
                    None
                }
            },
            JsonValue::Number(JsonNumber::NegInt(i)) => Some(*i),
            _ => None,
        }
    }

    /// The integer as a `u64`, when `self` is a non-negative integer.
    pub fn as_u64(&self) -> (r: Option<u64>)
        ensures
            r == (match self@ {
                JView::Number(JNum::PosInt(u)) => Some(u),
                _ => None,
            }),
    {
        match self {
            JsonValue::Number(JsonNumber::PosInt(u)) => Some(*u),
            _ => None,
        }
    }

    /// The object, when `self` is one.
    pub fn as_object(&self) -> (r: Option<&JsonMap>)
        ensures
            match r {
                Some(m) => self@ == JView::Object(m@),
                None => !(self@ is Object),
            },
    {
        match self {
            JsonValue::Object(m) => Some(m),
            _ => None,
        }
    }

    /// The array, when `self` is one.
    pub fn as_array(&self) -> (r: Option<&Vec<JsonValue>>)
        ensures
            match r {
                Some(a) => self@ == JView::Array(jv_seq(a@)),
                None => !(self@ is Array),
            },
    {
        match self {
            JsonValue::Array(a) => Some(a),
            _ => None,
        }
    }

    /// Whether `self` is `null`.
    pub fn is_null(&self) -> (r: bool)
        ensures
            r == (self@ is Null),
    {
        match self {
            JsonValue::Null => true,
            _ => false,
        }
    }

    /// Member `key` of an object; `None` for a missing key or a non-object.
    pub fn get(&self, key: &str) -> (r: Option<&JsonValue>)
        ensures
            opt_view(r) == member(self@, key@),
    {
        match self {
            JsonValue::Object(m) => m.get(key),
            _ => None,
        }
    }
}

/// The view of an optional reference.
pub open spec fn opt_view(r: Option<&JsonValue>) -> Option<JView> {
    match r {
        Some(x) => Some(x@),
        None => None,
    }
}

impl Clone for JsonValue {
    fn clone(&self) -> (r: Self)
        ensures
            r@ == self@,
    {
        self.deep_clone()
    }
}

/// Whether `a` orders strictly before `b` as a key.
fn str_less(a: &str, b: &str) -> (r: bool)
    ensures
        r == key_less(a@, b@),
{
    let x = crate::text::chars_of(a);
    let y = crate::text::chars_of(b);
    let mut i: usize = 0;
    assert(a@.skip(0) =~= a@);
    assert(b@.skip(0) =~= b@);
    while i < x.len() && i < y.len() && x[i] == y[i]
        invariant
            x@ == a@,
            y@ == b@,
            i <= x@.len(),
            i <= y@.len(),
            key_less(a@, b@) == key_less(a@.skip(i as int), b@.skip(i as int)),
        decreases x@.len() - i,
    {
        proof {
            let s = a@.skip(i as int);
            let t = b@.skip(i as int);
            assert(s[0] == t[0]);
            assert(s.skip(1) =~= a@.skip(i + 1));
            assert(t.skip(1) =~= b@.skip(i + 1));
        }
        i = i + 1;
    }
    if i == y.len() {
        assert(b@.skip(i as int).len() == 0);
        false
    } else if i == x.len() {
        assert(a@.skip(i as int).len() == 0);
        assert(b@.skip(i as int).len() > 0);
        true
    } else {
        let c = x[i];
        let d = y[i];
        proof {
            assert(a@.skip(i as int)[0] == c);
            assert(b@.skip(i as int)[0] == d);
        }
        (c as u32) < (d as u32)
    }
}

impl JsonMap {
    /// An empty object.
    pub fn new() -> (r: Self)
        ensures
            r@ == Seq::<(Seq<char>, JView)>::empty(),
            keys_ascending(r@),
    {
        let r = JsonMap { entries: Vec::new() };
        assert(r@ =~= Seq::<(Seq<char>, JView)>::empty());
        r
    }

    /// A deep copy with the same view.
    pub fn copy(&self) -> (r: Self)
        ensures
            r@ == self@,
    {
        broadcast use group_json_view;

        let mut out: Vec<(String, JsonValue)> = Vec::new();
        let n = self.entries.len();
        for i in 0..n
            invariant
                n == self.entries@.len(),
                out@.len() == i,
                forall|j: int| 0 <= j < i ==> out@[j].0@ == self.entries@[j].0@ && out@[j].1@ == self.entries@[j].1@,
        {
            let k = self.entries[i].0.clone();
            let v = self.entries[i].1.deep_clone();
            out.push((k, v));
        }
        assert(jv_entries(out@) =~= jv_entries(self.entries@));
        JsonMap { entries: out }
    }

    /// Number of members.
    pub fn len(&self) -> (r: usize)
        ensures
            r == self@.len(),
    {
        broadcast use group_json_view;

        self.entries.len()
    }

    /// Index of the first member with key `key`.
    pub fn find(&self, key: &str) -> (r: Option<usize>)
        ensures
            match r {
                Some(i) => i as int == first_index(self@, key@),
                None => first_index(self@, key@) == -1,
            },
    {
        broadcast use group_json_view;

        proof {
            lemma_first_index(self@, key@);
        }
        let n = self.entries.len();
        for i in 0..n
            invariant
                n == self@.len(),
                n == self.entries@.len(),
                forall|j: int| 0 <= j < i ==> !key_at(self@, j, key@),
        {
            proof {
                lemma_jv_entries(self.entries@);
            }
            assert(self@[i as int].0 == self.entries@[i as int].0@);
            if crate::text::str_eq(self.entries[i].0.as_str(), key) {
                proof {
                    lemma_first_index_at(self@, key@, i as int);
                }
                return Some(i);
            }
        }
        None
    }

    /// Whether some member has key `key`.
    pub fn contains_key(&self, key: &str) -> (r: bool)
        ensures
            r == (map_get(self@, key@) is Some),
    {
        self.find(key).is_some()
    }

    /// The value of the first member with key `key`.
    pub fn get(&self, key: &str) -> (r: Option<&JsonValue>)
        ensures
            opt_view(r) == map_get(self@, key@),
    {
        broadcast use group_json_view;

        match self.find(key) {
            Some(i) => Some(&self.entries[i].1),
            None => None,
        }
    }

    /// Sets member `key` to `value`: replaces the first member with that key,
    /// or adds one before the first member whose key it precedes.
    pub fn insert(&mut self, key: String, value: JsonValue)
        ensures
            final(self)@ == map_insert(old(self)@, key@, value@),
            keys_ascending(old(self)@) ==> keys_ascending(final(self)@),
    {
        broadcast use group_json_view;

        let ghost ov = self@;
        proof {
            if keys_ascending(ov) {
                lemma_map_insert_ascending(ov, key@, value@);
            }
        }
        match self.find(key.as_str()) {
            Some(i) => {
                self.entries.set(i, (key, value));
                assert(self@ =~= map_insert(ov, key@, value@));
            },
            None => {
                let n = self.entries.len();
                let mut p: usize = 0;
                while p < n && !str_less(key.as_str(), self.entries[p].0.as_str())
                    invariant
                        n == self.entries@.len(),
                        self@ == ov,
                        p <= n,
                        forall|j: int| 0 <= j < p ==> !key_less(key@, #[trigger] ov[j].0),
                    decreases n - p,
                {
                    proof {
                        lemma_jv_entries(self.entries@);
                    }
                    assert(jv_entries(self.entries@)[p as int].0 == self.entries@[p as int].0@);
                    p = p + 1;
                }
                proof {
                    lemma_jv_entries(self.entries@);
                    lemma_insert_at(ov, key@);
                    let q = insert_at(ov, key@);
                    if (p as int) < q {
                        assert(jv_entries(self.entries@)[p as int].0 == self.entries@[p as int].0@);
                        assert(!key_less(key@, ov[p as int].0));
                    } else if q < p {
                        assert(!key_less(key@, ov[q].0));
                    }
                }
                self.entries.insert(p, (key, value));
                assert(self@ =~= map_insert(ov, key@, value@));
            },
        }
    }

    /// Removes the first member with key `key`, returning its value.
    pub fn remove(&mut self, key: &str) -> (r: Option<JsonValue>)
        ensures
            final(self)@ == map_remove(old(self)@, key@),
            opt_value_view(r) == map_get(old(self)@, key@),
            keys_ascending(old(self)@) ==> keys_ascending(final(self)@),
    {
        broadcast use group_json_view;

        let ghost ov = self@;
        proof {
            if keys_ascending(ov) {
                lemma_map_remove_ascending(ov, key@);
            }
        }
        match self.find(key) {
            Some(i) => {
                let (_, v) = self.entries.remove(i);
                assert(self@ =~= map_remove(ov, key@));
                Some(v)
            },
            None => None,
        }
    }

    /// The keys, in member order.
    pub fn keys(&self) -> (r: Vec<String>)
        ensures
            r@.len() == self@.len(),
            forall|i: int| 0 <= i < r@.len() ==> #[trigger] r@[i]@ == self@[i].0,
    {
        broadcast use group_json_view;

        let mut out: Vec<String> = Vec::new();
        let n = self.entries.len();
        for i in 0..n
            invariant
                n == self.entries@.len(),
                out@.len() == i,
                forall|j: int| 0 <= j < i ==> #[trigger] out@[j]@ == self@[j].0,
        {
            proof {
                lemma_jv_entries(self.entries@);
            }
            assert(self@[i as int].0 == self.entries@[i as int].0@);
            out.push(self.entries[i].0.clone());
        }
        out
    }
}

/// The view of an optional value.
pub open spec fn opt_value_view(r: Option<JsonValue>) -> Option<JView> {
    match r {
        Some(x) => Some(x@),
        None => None,
    }
}

} // verus!
