//! Context construction for native hosts: a per-session builder that owns
//! the required-core envelope (agent, session, sequence) and fills the
//! conditional fields of each interception point. The host supplies each
//! context's timestamp (see [`rfc3339_from_unix`] for the usual one).
use vstd::prelude::*;
use crate::json::{map_get, map_insert, Entries, JNum, JView, JsonMap, JsonNumber, JsonValue};
use crate::text::{push_char, push_str, to_owned};
use crate::types::{ip_name, InterceptionPoint, SPEC_VERSION};

verus! {

broadcast use crate::json::group_json_view;

// ---- civil dates -------------------------------------------------------------------------

/// Days-to-civil conversion (Howard Hinnant's algorithm, with floor
/// division): the proleptic Gregorian `(year, month, day)` of day `z`
/// counted from 1970-01-01.
pub open spec fn spec_civil_from_days(z: int) -> (int, int, int) {
    let z2 = z + 719_468;
    let era = z2 / 146_097;
    let doe = z2 - era * 146_097;
    let yoe = (doe - doe / 1460 + doe / 36_524 - doe / 146_096) / 365;
    let y = yoe + era * 400;
    let doy = doe - (365 * yoe + yoe / 4 - yoe / 100);
    let mp = (5 * doy + 2) / 153;
    let d = doy - (153 * mp + 2) / 5 + 1;
    let m = if mp < 10 { mp + 3 } else { mp - 9 };
    (if m <= 2 { y + 1 } else { y }, m, d)
}

/// Days-to-civil conversion: the proleptic Gregorian `(year, month, day)`
/// of day `z` counted from 1970-01-01.
#[verifier::rlimit(40)]
pub fn civil_from_days(z: i64) -> (r: (i64, u32, u32))
    requires
        z <= i64::MAX - 719_468,
    ensures
        (r.0 as int, r.1 as int, r.2 as int) == spec_civil_from_days(z as int),
        1 <= r.1 <= 12,
        1 <= r.2 <= 31,
        z >= -719_468 ==> r.0 >= 0,
{
    let z = z + 719_468;
    let era: i64 = if z >= 0 {
        z / 146_097
    } else {
        let a: u64 = (146_096 - z) as u64;
        -((a / 146_097) as i64)
    };
    proof {
        lemma_era(z as int, era as int);
    }
    let doe: u64 = (z - era * 146_097) as u64;
    proof {
        lemma_doy(doe as int);
    }
    let yoe: u64 = (doe - doe / 1460 + doe / 36_524 - doe / 146_096) / 365;
    let y: i64 = yoe as i64 + era * 400;
    let doy: u64 = doe - (365 * yoe + yoe / 4 - yoe / 100);
    proof {
        lemma_month(doy as int);
    }
    let mp: u64 = (5 * doy + 2) / 153;
    let d = (doy - (153 * mp + 2) / 5 + 1) as u32;
    let m = (if mp < 10 { mp + 3 } else { mp - 9 }) as u32;
    (if m <= 2 { y + 1 } else { y }, m, d)
}

proof fn lemma_era(z: int, era: int)
    requires
        i64::MIN + 719_468 <= z <= i64::MAX,
        z >= 0 ==> era == z / 146_097,
        z < 0 ==> era == -((146_096 - z) / 146_097),
    ensures
        era == z / 146_097,
        0 <= z - era * 146_097 <= 146_096,
        i64::MIN <= era * 146_097,
        -0x4000_0000_0000 <= era <= 0x4000_0000_0000,
{
    if z >= 0 {
        assert(0 <= z - era * 146_097 < 146_097) by (nonlinear_arith)
            requires
                z >= 0,
                era == z / 146_097;
        assert(era <= 0x4000_0000_0000) by (nonlinear_arith)
            requires
                0 <= z <= 0x7fff_ffff_ffff_ffff,
                era == z / 146_097;
    } else {
        let q = (146_096 - z) / 146_097;
        assert(0 <= q * 146_097 + z < 146_097) by (nonlinear_arith)
            requires
                z < 0,
                q == (146_096 - z) / 146_097;
        assert(q <= 0x4000_0000_0000) by (nonlinear_arith)
            requires
                -0x8000_0000_0000_0000 <= z < 0,
                q == (146_096 - z) / 146_097;
        vstd::arithmetic::div_mod::lemma_fundamental_div_mod_converse(z, 146_097, -q, z + q * 146_097);
    }
}

proof fn lemma_month(doy: int)
    requires
        0 <= doy <= 365,
    ensures
        ({
            let mp = (5 * doy + 2) / 153;
            &&& 0 <= mp <= 11
            &&& (153 * mp + 2) / 5 <= doy
            &&& doy - (153 * mp + 2) / 5 + 1 <= 31
        }),
{
    lemma_month_bits(doy as u32);
}

proof fn lemma_month_bits(doy: u32)
    by (bit_vector)
    requires
        doy <= 365,
    ensures
        ({
            let mp = (5 * doy + 2) / 153;
            &&& mp <= 11
            &&& (153 * mp + 2) / 5 <= doy
            &&& doy - (153 * mp + 2) / 5 + 1 <= 31
        }),
{
}

proof fn lemma_doy(doe: int)
    requires
        0 <= doe <= 146_096,
    ensures
        ({
            let yoe = (doe - doe / 1460 + doe / 36_524 - doe / 146_096) / 365;
            &&& 0 <= doe - (365 * yoe + yoe / 4 - yoe / 100) <= 365
            &&& 0 <= yoe <= 399
        }),
{
    lemma_doy_bits(doe as u32);
}

proof fn lemma_doy_bits(doe: u32)
    by (bit_vector)
    requires
        doe <= 146_096,
    ensures
        ({
            let yoe = (doe - doe / 1460 + doe / 36_524 - doe / 146_096) / 365;
            &&& yoe <= 399
            &&& 365 * yoe + yoe / 4 - yoe / 100 <= doe
            &&& doe <= 365 * yoe + yoe / 4 - yoe / 100 + 365
        }),
{
}


// ---- timestamps ----------------------------------------------------------------------------

/// The decimal digits of `n`, left-padded with zeros to `width`.
pub open spec fn padded(n: nat, width: nat) -> Seq<char> {
    let digits = crate::jcs::decimal(n);
    Seq::new(if digits.len() < width { (width - digits.len()) as nat } else { 0 }, |i: int| '0') + digits
}

proof fn lemma_decimal_len(n: nat)
    ensures
        crate::jcs::decimal(n).len() >= 1,
        n < 10 ==> crate::jcs::decimal(n).len() == 1,
        10 <= n < 100 ==> crate::jcs::decimal(n).len() == 2,
        100 <= n < 1000 ==> crate::jcs::decimal(n).len() == 3,
    decreases n,
{
    if n >= 10 {
        lemma_decimal_len(n / 10);
    }
}

fn write_padded(n: u64, width: usize, out: &mut String)
    requires
        width <= 4,
    ensures
        final(out)@ == old(out)@ + padded(n as nat, width as nat),
{
    let ghost o = out@;
    proof {
        lemma_decimal_len(n as nat);
    }
    let digits: usize = if n < 10 { 1 } else if n < 100 { 2 } else if n < 1000 { 3 } else { 4 };
    let mut k: usize = digits;
    let ghost zeros = if crate::jcs::decimal(n as nat).len() < width { (width - crate::jcs::decimal(n as nat).len()) as nat } else { 0 };
    let mut count: usize = 0;
    while k < width
        invariant
            digits <= k || k == digits,
            k <= width || k == digits,
            width <= 4,
            count == k - digits,
            out@ == o + Seq::new(count as nat, |i: int| '0'),
        decreases width - k,
    {
        let ghost before = out@;
        push_char(out, '0');
        assert(out@ =~= o + Seq::new((count + 1) as nat, |i: int| '0'));
        k = k + 1;
        count = count + 1;
    }
    proof {
        if n >= 1000 {
            lemma_decimal_len_big(n as nat);
        }
    }
    assert(count == zeros);
    crate::jcs::write_decimal(n, out);
}

proof fn lemma_decimal_len_big(n: nat)
    requires
        n >= 1000,
    ensures
        crate::jcs::decimal(n).len() >= 4,
    decreases n,
{
    lemma_decimal_len(n / 10);
    if n / 10 >= 1000 {
        lemma_decimal_len_big(n / 10);
    }
}

/// RFC 3339 UTC instant with millisecond precision:
/// `YYYY-MM-DDThh:mm:ss.mmmZ`.
pub open spec fn spec_rfc3339(secs: nat, millis: nat) -> Seq<char> {
    let c = spec_civil_from_days((secs / 86_400) as int);
    let sod = secs % 86_400;
    padded(c.0 as nat, 4) + "-"@ + padded(c.1 as nat, 2) + "-"@ + padded(c.2 as nat, 2) + "T"@
        + padded(sod / 3600, 2) + ":"@ + padded((sod / 60) % 60, 2) + ":"@ + padded(sod % 60, 2) + "."@
        + padded(millis, 3) + "Z"@
}

/// The RFC 3339 UTC instant `secs` seconds and `millis` milliseconds after
/// the Unix epoch, with millisecond precision.
pub fn rfc3339_from_unix(secs: u64, millis: u32) -> (r: String)
    requires
        millis < 1000,
    ensures
        r@ == spec_rfc3339(secs as nat, millis as nat),
{
    let days = secs / 86_400;
    let (y, m, d) = civil_from_days(days as i64);
    let sod = secs % 86_400;
    let mut out = String::new();
    write_padded(y as u64, 4, &mut out);
    push_str(&mut out, "-");
    write_padded(m as u64, 2, &mut out);
    push_str(&mut out, "-");
    write_padded(d as u64, 2, &mut out);
    push_str(&mut out, "T");
    write_padded(sod / 3600, 2, &mut out);
    push_str(&mut out, ":");
    write_padded((sod / 60) % 60, 2, &mut out);
    push_str(&mut out, ":");
    write_padded(sod % 60, 2, &mut out);
    push_str(&mut out, ".");
    write_padded(millis as u64, 3, &mut out);
    push_str(&mut out, "Z");
    assert(out@ =~= spec_rfc3339(secs as nat, millis as nat));
    out
}

// ---- the context builder ---------------------------------------------------------------------

/// Per-session builder of contexts: it owns the agent and session
/// identity, the sequence counter, and optional members attached to every
/// context.
#[derive(Debug)]
pub struct AgentContextBuilder {
    pub agent: JsonMap,
    pub session: JsonMap,
    /// The sequence number of the next context.
    pub seq: u64,
    /// Optional members added to every subsequent context.
    pub optional: JsonMap,
}

/// `es` after inserting each member of `opts`, in order.
pub open spec fn insert_all(es: Entries, opts: Entries) -> Entries
    decreases opts.len(),
{
    if opts.len() == 0 {
        es
    } else {
        map_insert(insert_all(es, opts.drop_last()), opts.last().0, opts.last().1)
    }
}

/// The required core of a context.
pub open spec fn envelope_core(ip: InterceptionPoint, ts: Seq<char>, seq: u64, agent: Entries, session: Entries, target: JView) -> Entries {
    seq![
        ("spec"@, JView::Str(SPEC_VERSION@)),
        ("interception_point"@, JView::Str(ip_name(ip))),
        ("timestamp"@, JView::Str(ts)),
        ("sequence"@, JView::Number(JNum::PosInt(seq))),
        ("agent"@, JView::Object(agent)),
        ("session"@, JView::Object(session)),
        ("target"@, target),
    ]
}

/// A context's envelope: the required core, then the builder's optional
/// members.
pub open spec fn spec_envelope(b: AgentContextBuilder, ip: InterceptionPoint, ts: Seq<char>, target: JView) -> Entries {
    insert_all(envelope_core(ip, ts, b.seq, b.agent@, b.session@, target), b.optional@)
}

/// A JSON object of the given members.
pub open spec fn object_of(es: Entries) -> JView {
    JView::Object(es)
}

fn object2(k1: &str, v1: JsonValue, k2: &str, v2: JsonValue) -> (r: JsonValue)
    ensures
        r@ == object_of(seq![(k1@, v1@), (k2@, v2@)]),
{
    let mut e: Vec<(String, JsonValue)> = Vec::new();
    e.push((to_owned(k1), v1));
    e.push((to_owned(k2), v2));
    let r = JsonValue::Object(JsonMap { entries: e });
    assert(crate::json::jv_entries(e@) =~= seq![(k1@, v1@), (k2@, v2@)]);
    r
}

fn object3(k1: &str, v1: JsonValue, k2: &str, v2: JsonValue, k3: &str, v3: JsonValue) -> (r: JsonValue)
    ensures
        r@ == object_of(seq![(k1@, v1@), (k2@, v2@), (k3@, v3@)]),
{
    let mut e: Vec<(String, JsonValue)> = Vec::new();
    e.push((to_owned(k1), v1));
    e.push((to_owned(k2), v2));
    e.push((to_owned(k3), v3));
    let r = JsonValue::Object(JsonMap { entries: e });
    assert(crate::json::jv_entries(e@) =~= seq![(k1@, v1@), (k2@, v2@), (k3@, v3@)]);
    r
}

fn object1(k1: &str, v1: JsonValue) -> (r: JsonValue)
    ensures
        r@ == object_of(seq![(k1@, v1@)]),
{
    let mut e: Vec<(String, JsonValue)> = Vec::new();
    e.push((to_owned(k1), v1));
    let r = JsonValue::Object(JsonMap { entries: e });
    assert(crate::json::jv_entries(e@) =~= seq![(k1@, v1@)]);
    r
}

fn string_value(s: &str) -> (r: JsonValue)
    ensures
        r@ == JView::Str(s@),
{
    JsonValue::String(to_owned(s))
}

impl AgentContextBuilder {
    /// A builder for the agent `agent_id` of `framework` in session
    /// `session_id`, starting at sequence 0.
    pub fn new(agent_id: &str, framework: &str, session_id: &str) -> (r: Self)
        ensures
            r.agent@ == seq![("id"@, JView::Str(agent_id@)), ("framework"@, JView::Str(framework@))],
            r.session@ == seq![("id"@, JView::Str(session_id@))],
            r.seq == 0,
            r.optional@.len() == 0,
    {
        let mut a: Vec<(String, JsonValue)> = Vec::new();
        a.push((to_owned("id"), string_value(agent_id)));
        a.push((to_owned("framework"), string_value(framework)));
        let mut s: Vec<(String, JsonValue)> = Vec::new();
        s.push((to_owned("id"), string_value(session_id)));
        let r = AgentContextBuilder {
            agent: JsonMap { entries: a },
            session: JsonMap { entries: s },
            seq: 0,
            optional: JsonMap::new(),
        };
        assert(r.agent@ =~= seq![("id"@, JView::Str(agent_id@)), ("framework"@, JView::Str(framework@))]);
        assert(r.session@ =~= seq![("id"@, JView::Str(session_id@))]);
        r
    }

    /// Attach an optional member (`trace`, `tenant`, …) to every subsequent
    /// context.
    pub fn with_optional(&mut self, key: &str, value: JsonValue)
        ensures
            final(self).optional@ == map_insert(old(self).optional@, key@, value@),
            final(self).agent == old(self).agent,
            final(self).session == old(self).session,
            final(self).seq == old(self).seq,
    {
        self.optional.insert(to_owned(key), value);
    }

    fn envelope(&mut self, ip: InterceptionPoint, timestamp: String, target: JsonValue) -> (r: JsonMap)
        requires
            old(self).seq < u64::MAX,
        ensures
            r@ == spec_envelope(*old(self), ip, timestamp@, target@),
            final(self).seq == old(self).seq + 1,
            final(self).agent == old(self).agent,
            final(self).session == old(self).session,
            final(self).optional == old(self).optional,
    {
        let mut e: Vec<(String, JsonValue)> = Vec::new();
        e.push((to_owned("spec"), string_value(SPEC_VERSION)));
        e.push((to_owned("interception_point"), string_value(ip.as_str())));
        e.push((to_owned("timestamp"), JsonValue::String(timestamp)));
        e.push((to_owned("sequence"), JsonValue::Number(JsonNumber::PosInt(self.seq))));
        e.push((to_owned("agent"), JsonValue::Object(self.agent.copy())));
        e.push((to_owned("session"), JsonValue::Object(self.session.copy())));
        e.push((to_owned("target"), target));
        let mut ctx = JsonMap { entries: e };
        let ghost core = envelope_core(ip, timestamp@, self.seq, self.agent@, self.session@, target@);
        assert(ctx@ =~= core);
        let ghost opts = self.optional@;
        let n = self.optional.entries.len();
        for i in 0..n
            invariant
                n == self.optional.entries@.len(),
                opts == self.optional@,
                ctx@ == insert_all(core, opts.take(i as int)),
        {
            assert(opts.take(i + 1).drop_last() =~= opts.take(i as int));
            assert(opts[i as int] == (self.optional.entries@[i as int].0@, self.optional.entries@[i as int].1@));
            ctx.insert(self.optional.entries[i].0.clone(), self.optional.entries[i].1.clone());
        }
        assert(opts.take(n as int) =~= opts);
        self.seq = self.seq + 1;
        ctx
    }

    /// The `agent_startup` context: target and `agent_init` are
    /// `{"tools_registered": [...]}`.
    pub fn agent_startup(&mut self, timestamp: String, tools_registered: Vec<String>) -> (r: JsonMap)
        requires
            old(self).seq < u64::MAX,
        ensures
            ({
                let init = object_of(seq![("tools_registered"@, JView::Array(tools_registered@.map_values(|t: String| JView::Str(t@))))]);
                r@ == map_insert(spec_envelope(*old(self), InterceptionPoint::AgentStartup, timestamp@, init), "agent_init"@, init)
            }),
            final(self).seq == old(self).seq + 1,
            final(self).optional == old(self).optional,
    {
        let mut items: Vec<JsonValue> = Vec::new();
        let n = tools_registered.len();
        for i in 0..n
            invariant
                n == tools_registered@.len(),
                crate::json::jv_seq(items@) == tools_registered@.take(i as int).map_values(|t: String| JView::Str(t@)),
        {
            let ghost before = items@;
            items.push(JsonValue::String(tools_registered[i].clone()));
            assert(items@.drop_last() == before);
            assert(crate::json::jv_seq(items@) =~= tools_registered@.take(i + 1).map_values(|t: String| JView::Str(t@)));
        }
        assert(tools_registered@.take(n as int) =~= tools_registered@);
        let init = object1("tools_registered", JsonValue::Array(items));
        let mut ctx = self.envelope(InterceptionPoint::AgentStartup, timestamp, init.clone());
        ctx.insert(to_owned("agent_init"), init);
        ctx
    }

    /// The `input` context: target and `input` are
    /// `{"content": content, "role": role}`.
    pub fn input(&mut self, timestamp: String, content: JsonValue, role: &str) -> (r: JsonMap)
        requires
            old(self).seq < u64::MAX,
        ensures
            ({
                let input = object_of(seq![("content"@, content@), ("role"@, JView::Str(role@))]);
                r@ == map_insert(spec_envelope(*old(self), InterceptionPoint::Input, timestamp@, input), "input"@, input)
            }),
            final(self).seq == old(self).seq + 1,
            final(self).optional == old(self).optional,
    {
        let input = object2("content", content, "role", string_value(role));
        let mut ctx = self.envelope(InterceptionPoint::Input, timestamp, input.clone());
        ctx.insert(to_owned("input"), input);
        ctx
    }

    /// The `pre_model_call` context: target and `messages` are the
    /// messages; `model` is `{"id": model_id}`.
    pub fn pre_model_call(&mut self, timestamp: String, model_id: &str, messages: Vec<JsonValue>) -> (r: JsonMap)
        requires
            old(self).seq < u64::MAX,
        ensures
            ({
                let msgs = JView::Array(crate::json::jv_seq(messages@));
                r@ == map_insert(
                    map_insert(spec_envelope(*old(self), InterceptionPoint::PreModelCall, timestamp@, msgs), "model"@, object_of(seq![("id"@, JView::Str(model_id@))])),
                    "messages"@,
                    msgs,
                )
            }),
            final(self).seq == old(self).seq + 1,
            final(self).optional == old(self).optional,
    {
        let msgs = JsonValue::Array(messages);
        let mut ctx = self.envelope(InterceptionPoint::PreModelCall, timestamp, msgs.clone());
        ctx.insert(to_owned("model"), object1("id", string_value(model_id)));
        ctx.insert(to_owned("messages"), msgs);
        ctx
    }

    /// The `post_model_call` context: target and `response` are
    /// `{"content", "tool_calls", "finish_reason"}`; `model` is
    /// `{"id": model_id}`.
    pub fn post_model_call(
        &mut self,
        timestamp: String,
        model_id: &str,
        content: JsonValue,
        tool_calls: Vec<JsonValue>,
        finish_reason: &str,
    ) -> (r: JsonMap)
        requires
            old(self).seq < u64::MAX,
        ensures
            ({
                let response = object_of(seq![
                    ("content"@, content@),
                    ("tool_calls"@, JView::Array(crate::json::jv_seq(tool_calls@))),
                    ("finish_reason"@, JView::Str(finish_reason@)),
                ]);
                r@ == map_insert(
                    map_insert(spec_envelope(*old(self), InterceptionPoint::PostModelCall, timestamp@, response), "model"@, object_of(seq![("id"@, JView::Str(model_id@))])),
                    "response"@,
                    response,
                )
            }),
            final(self).seq == old(self).seq + 1,
            final(self).optional == old(self).optional,
    {
        let response = object3("content", content, "tool_calls", JsonValue::Array(tool_calls), "finish_reason", string_value(finish_reason));
        let mut ctx = self.envelope(InterceptionPoint::PostModelCall, timestamp, response.clone());
        ctx.insert(to_owned("model"), object1("id", string_value(model_id)));
        ctx.insert(to_owned("response"), response);
        ctx
    }

    /// The `pre_tool_call` context: target is the arguments; `tool_call` is
    /// `{"id", "name", "args"}`.
    pub fn pre_tool_call(&mut self, timestamp: String, call_id: &str, name: &str, args: JsonValue) -> (r: JsonMap)
        requires
            old(self).seq < u64::MAX,
        ensures
            r@ == map_insert(
                spec_envelope(*old(self), InterceptionPoint::PreToolCall, timestamp@, args@),
                "tool_call"@,
                object_of(seq![("id"@, JView::Str(call_id@)), ("name"@, JView::Str(name@)), ("args"@, args@)]),
            ),
            final(self).seq == old(self).seq + 1,
            final(self).optional == old(self).optional,
    {
        let mut ctx = self.envelope(InterceptionPoint::PreToolCall, timestamp, args.clone());
        ctx.insert(to_owned("tool_call"), object3("id", string_value(call_id), "name", string_value(name), "args", args));
        ctx
    }

    /// The `post_tool_call` context: target is the result value;
    /// `tool_call` is `{"id", "name", "args"}` and `tool_result` is
    /// `{"value", "is_error"}`.
    pub fn post_tool_call(
        &mut self,
        timestamp: String,
        call_id: &str,
        name: &str,
        args: JsonValue,
        value: JsonValue,
        is_error: bool,
    ) -> (r: JsonMap)
        requires
            old(self).seq < u64::MAX,
        ensures
            r@ == map_insert(
                map_insert(
                    spec_envelope(*old(self), InterceptionPoint::PostToolCall, timestamp@, value@),
                    "tool_call"@,
                    object_of(seq![("id"@, JView::Str(call_id@)), ("name"@, JView::Str(name@)), ("args"@, args@)]),
                ),
                "tool_result"@,
                object_of(seq![("value"@, value@), ("is_error"@, JView::Bool(is_error))]),
            ),
            final(self).seq == old(self).seq + 1,
            final(self).optional == old(self).optional,
    {
        let mut ctx = self.envelope(InterceptionPoint::PostToolCall, timestamp, value.clone());
        ctx.insert(to_owned("tool_call"), object3("id", string_value(call_id), "name", string_value(name), "args", args));
        ctx.insert(to_owned("tool_result"), object2("value", value, "is_error", JsonValue::Bool(is_error)));
        ctx
    }

    /// The `output` context: target and `output` are `{"content": content}`.
    pub fn output(&mut self, timestamp: String, content: JsonValue) -> (r: JsonMap)
        requires
            old(self).seq < u64::MAX,
        ensures
            ({
                let output = object_of(seq![("content"@, content@)]);
                r@ == map_insert(spec_envelope(*old(self), InterceptionPoint::Output, timestamp@, output), "output"@, output)
            }),
            final(self).seq == old(self).seq + 1,
            final(self).optional == old(self).optional,
    {
        let output = object1("content", content);
        let mut ctx = self.envelope(InterceptionPoint::Output, timestamp, output.clone());
        ctx.insert(to_owned("output"), output);
        ctx
    }

    /// The `agent_shutdown` context: target and `summary` are
    /// `{"reason": reason}`.
    pub fn agent_shutdown(&mut self, timestamp: String, reason: &str) -> (r: JsonMap)
        requires
            old(self).seq < u64::MAX,
        ensures
            ({
                let summary = object_of(seq![("reason"@, JView::Str(reason@))]);
                r@ == map_insert(spec_envelope(*old(self), InterceptionPoint::AgentShutdown, timestamp@, summary), "summary"@, summary)
            }),
            final(self).seq == old(self).seq + 1,
            final(self).optional == old(self).optional,
    {
        let summary = object1("reason", string_value(reason));
        let mut ctx = self.envelope(InterceptionPoint::AgentShutdown, timestamp, summary.clone());
        ctx.insert(to_owned("summary"), summary);
        ctx
    }
}

// ---- validity of built contexts ----------------------------------------------------------------

/// The required-core field names.
pub open spec fn required_key(k: Seq<char>) -> bool {
    k == "spec"@ || k == "interception_point"@ || k == "timestamp"@ || k == "sequence"@ || k == "agent"@
        || k == "session"@ || k == "target"@
}

proof fn lemma_insert_all_other(es: Entries, opts: Entries, k: Seq<char>)
    requires
        forall|i: int| 0 <= i < opts.len() ==> (#[trigger] opts[i]).0 != k,
    ensures
        map_get(insert_all(es, opts), k) == map_get(es, k),
    decreases opts.len(),
{
    if opts.len() > 0 {
        lemma_insert_all_other(es, opts.drop_last(), k);
        assert(opts.last().0 != k);
        crate::json::lemma_map_insert(insert_all(es, opts.drop_last()), opts.last().0, opts.last().1, k);
    }
}

proof fn lemma_core_get(ip: InterceptionPoint, ts: Seq<char>, seq: u64, agent: Entries, session: Entries, target: JView)
    ensures
        ({
            let c = envelope_core(ip, ts, seq, agent, session, target);
            &&& map_get(c, "spec"@) == Some(JView::Str(SPEC_VERSION@))
            &&& map_get(c, "interception_point"@) == Some(JView::Str(ip_name(ip)))
            &&& map_get(c, "timestamp"@) == Some(JView::Str(ts))
            &&& map_get(c, "sequence"@) == Some(JView::Number(JNum::PosInt(seq)))
            &&& map_get(c, "agent"@) == Some(JView::Object(agent))
            &&& map_get(c, "session"@) == Some(JView::Object(session))
            &&& map_get(c, "target"@) == Some(target)
        }),
{
    let c = envelope_core(ip, ts, seq, agent, session, target);
    reveal_strlit("spec");
    reveal_strlit("interception_point");
    reveal_strlit("timestamp");
    reveal_strlit("sequence");
    reveal_strlit("agent");
    reveal_strlit("session");
    reveal_strlit("target");
    assert("spec"@.len() == 4);
    assert("interception_point"@.len() == 18);
    assert("timestamp"@.len() == 9);
    assert("sequence"@.len() == 8);
    assert("agent"@.len() == 5);
    assert("session"@.len() == 7);
    assert("target"@.len() == 6);
    crate::json::lemma_first_index_at(c, "spec"@, 0);
    crate::json::lemma_first_index_at(c, "interception_point"@, 1);
    crate::json::lemma_first_index_at(c, "timestamp"@, 2);
    crate::json::lemma_first_index_at(c, "sequence"@, 3);
    crate::json::lemma_first_index_at(c, "agent"@, 4);
    crate::json::lemma_first_index_at(c, "session"@, 5);
    crate::json::lemma_first_index_at(c, "target"@, 6);
}

/// Every context the builder makes passes the envelope check, with the
/// builder's sequence number, as long as its agent and session carry
/// string identifiers and no optional member shadows a required field.
pub proof fn law_envelope_valid(b: AgentContextBuilder, ip: InterceptionPoint, ts: Seq<char>, target: JView)
    requires
        crate::canonical::has_str_member(Some(JView::Object(b.agent@)), "id"@),
        crate::canonical::has_str_member(Some(JView::Object(b.agent@)), "framework"@),
        crate::canonical::has_str_member(Some(JView::Object(b.session@)), "id"@),
        forall|i: int| 0 <= i < b.optional@.len() ==> !required_key(#[trigger] b.optional@[i].0),
    ensures
        crate::canonical::spec_validate_envelope(spec_envelope(b, ip, ts, target)) is Ok,
        map_get(spec_envelope(b, ip, ts, target), "sequence"@) == Some(JView::Number(JNum::PosInt(b.seq))),
{
    let core = envelope_core(ip, ts, b.seq, b.agent@, b.session@, target);
    lemma_core_get(ip, ts, b.seq, b.agent@, b.session@, target);
    let opts = b.optional@;
    lemma_insert_all_other(core, opts, "spec"@);
    lemma_insert_all_other(core, opts, "interception_point"@);
    lemma_insert_all_other(core, opts, "timestamp"@);
    lemma_insert_all_other(core, opts, "sequence"@);
    lemma_insert_all_other(core, opts, "agent"@);
    lemma_insert_all_other(core, opts, "session"@);
    lemma_insert_all_other(core, opts, "target"@);
    crate::types::lemma_ip_name_roundtrip(ip);
}

/// Adding a member that is not a required field keeps a context's
/// envelope check as it was (the conditional fields each point adds).
pub proof fn law_conditional_member_keeps_envelope(ctx: Entries, k: Seq<char>, v: JView)
    requires
        !required_key(k),
    ensures
        crate::canonical::spec_validate_envelope(map_insert(ctx, k, v)) == crate::canonical::spec_validate_envelope(ctx),
{
    crate::json::lemma_map_insert(ctx, k, v, "spec"@);
    crate::json::lemma_map_insert(ctx, k, v, "interception_point"@);
    crate::json::lemma_map_insert(ctx, k, v, "timestamp"@);
    crate::json::lemma_map_insert(ctx, k, v, "sequence"@);
    crate::json::lemma_map_insert(ctx, k, v, "agent"@);
    crate::json::lemma_map_insert(ctx, k, v, "session"@);
    crate::json::lemma_map_insert(ctx, k, v, "target"@);
}
} // verus!
