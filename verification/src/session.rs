//! The session model: what an agent session holds once parsed, and the
//! computations that summarise or select its events.
//!
//! Text fields hold `String`s; `s@` is their character sequence.

use vstd::prelude::*;
use crate::selection::ParseSelection;
use crate::text::{lemma_seq_less_irreflexive, lemma_seq_less_total, lemma_seq_less_transitive, precedes, seq_less};

verus! {

broadcast use vstd::string::group_string_axioms;

/// Identifies which agent produced a session. It is an open newtype, so that
/// agent identifiers stay owned by the provider that describes them.
#[derive(Debug, Clone, PartialEq, Eq, Hash)]
pub struct AgentKind(pub String);

impl AgentKind {
    /// The agent kind named `name`.
    pub fn new(name: String) -> (kind: Self)
        ensures
            kind.0@ == name@,
    {
        AgentKind(name)
    }

    /// The name of the agent kind.
    pub fn as_str(&self) -> (s: &str)
        ensures
            s@ == self.0@,
    {
        self.0.as_str()
    }
}

/// Identifies the format version of a parsed session. Like [`AgentKind`] it
/// is an open newtype whose tags belong to the providers.
#[derive(Debug, Clone, PartialEq, Eq, Hash)]
pub struct VersionKind(pub String);

impl VersionKind {
    /// The version kind named `name`.
    pub fn new(name: String) -> (kind: Self)
        ensures
            kind.0@ == name@,
    {
        VersionKind(name)
    }

    /// The name of the version kind.
    pub fn as_str(&self) -> (s: &str)
        ensures
            s@ == self.0@,
    {
        self.0.as_str()
    }
}

/// Facts about a session as a whole.
#[derive(Debug, Clone, PartialEq, Eq)]
pub struct SessionMeta {
    pub session_id: Option<String>,
    pub thread_id: Option<String>,
    pub cwd: Option<String>,
    pub title: Option<String>,
    pub models: Vec<SessionModelMeta>,
    pub created_at: Option<String>,
    pub updated_at: Option<String>,
    pub source_kind: Option<String>,
    pub extra_json: Option<String>,
}

impl SessionMeta {
    /// Whether the metadata records nothing: every field is absent and the
    /// list of models is empty.
    pub open spec fn is_blank(self) -> bool {
        &&& self.session_id is None
        &&& self.thread_id is None
        &&& self.cwd is None
        &&& self.title is None
        &&& self.models@.len() == 0
        &&& self.created_at is None
        &&& self.updated_at is None
        &&& self.source_kind is None
        &&& self.extra_json is None
    }
}

impl Default for SessionMeta {
    fn default() -> (meta: Self)
        ensures
            meta.is_blank(),
    {
        SessionMeta {
            session_id: None,
            thread_id: None,
            cwd: None,
            title: None,
            models: Vec::new(),
            created_at: None,
            updated_at: None,
            source_kind: None,
            extra_json: None,
        }
    }
}

/// Token usage of one model over a session.
#[derive(Debug, Clone, PartialEq, Eq, Default)]
pub struct SessionModelMeta {
    pub model: String,
    pub input_tokens: u64,
    pub output_tokens: u64,
    pub cache_creation_tokens: u64,
    pub cache_read_tokens: u64,
    pub cached_tokens: u64,
    pub reasoning_tokens: u64,
    pub tool_tokens: u64,
    pub total_tokens: u64,
    pub web_search_requests: u64,
}

/// The number of counters that usage records and model summaries share.
pub const COUNTERS: usize = 9;

impl SessionModelMeta {
    /// The `k`-th counter, in the order in which the fields are declared.
    pub open spec fn counter(self, k: int) -> u64 {
        if k == 0 {
            self.input_tokens
        } else if k == 1 {
            self.output_tokens
        } else if k == 2 {
            self.cache_creation_tokens
        } else if k == 3 {
            self.cache_read_tokens
        } else if k == 4 {
            self.cached_tokens
        } else if k == 5 {
            self.reasoning_tokens
        } else if k == 6 {
            self.tool_tokens
        } else if k == 7 {
            self.total_tokens
        } else {
            self.web_search_requests
        }
    }

    /// A summary for `model` with every counter at zero.
    pub fn zero(model: String) -> (meta: Self)
        ensures
            meta.model@ == model@,
            forall|k: int| 0 <= k < COUNTERS ==> #[trigger] meta.counter(k) == 0,
    {
        SessionModelMeta {
            model,
            input_tokens: 0,
            output_tokens: 0,
            cache_creation_tokens: 0,
            cache_read_tokens: 0,
            cached_tokens: 0,
            reasoning_tokens: 0,
            tool_tokens: 0,
            total_tokens: 0,
            web_search_requests: 0,
        }
    }
}

/// A parsed session: who produced it, in which format, its metadata and its
/// events in order.
#[derive(Debug, Clone, PartialEq)]
pub struct Session {
    pub agent: AgentKind,
    pub version: VersionKind,
    pub meta: SessionMeta,
    pub events: Vec<Event>,
}

/// One event of a session.
#[derive(Debug, Clone, PartialEq)]
pub struct Event {
    pub id: Option<String>,
    pub timestamp: Option<String>,
    pub actor: Actor,
    pub turn_id: Option<String>,
    pub op_id: Option<String>,
    pub parent_op_id: Option<String>,
    pub body: Body,
}

/// Who an event comes from.
#[derive(Debug, Clone, PartialEq, Eq)]
pub enum Actor {
    User,
    Assistant,
    System,
    Tool,
    Subagent,
    Other(String),
}

/// What an event carries.
#[derive(Debug, Clone, PartialEq)]
pub enum Body {
    Prompt(Prompt),
    Response(Response),
    Operation(Operation),
    Usage(Usage),
    State(State),
    Snapshot(Snapshot),
    Unknown(Unknown),
}

/// A prompt given to the agent.
#[derive(Debug, Clone, PartialEq, Eq, Default)]
pub struct Prompt {
    pub text: Option<String>,
    pub blocks: Vec<ContentBlock>,
}

/// A response of the agent.
#[derive(Debug, Clone, PartialEq, Eq, Default)]
pub struct Response {
    pub model: Option<String>,
    pub phase: Option<String>,
    pub text: Option<String>,
    pub blocks: Vec<ContentBlock>,
}

/// A tool operation. Its duration is held as the IEEE-754 bit pattern of a
/// number of seconds (`f64::to_bits`), so that it is carried unchanged.
#[derive(Debug, Clone, PartialEq, Eq)]
pub struct Operation {
    pub kind: OperationKind,
    pub phase: OperationPhase,
    pub name: String,
    pub input_json: Option<String>,
    pub output_json: Option<String>,
    pub command: Option<String>,
    pub file_path: Option<String>,
    pub lines_added: u64,
    pub lines_removed: u64,
    pub is_error: bool,
    pub duration_seconds_bits: Option<u64>,
    pub extra_json: Option<String>,
}

/// The kind of a tool operation.
#[derive(Debug, Clone, PartialEq, Eq)]
pub enum OperationKind {
    Shell,
    Read,
    Write,
    Edit,
    Search,
    Fetch,
    Web,
    Mcp,
    Subagent,
    Task,
    Custom(String),
}

/// Where a tool operation stands.
#[derive(Debug, Clone, Copy, PartialEq, Eq)]
pub enum OperationPhase {
    Requested,
    Started,
    Progress,
    Completed,
    Failed,
    Cancelled,
}

/// Token usage reported by an event.
#[derive(Debug, Clone, PartialEq, Eq, Default)]
pub struct Usage {
    pub model: Option<String>,
    pub input_tokens: u64,
    pub output_tokens: u64,
    pub cache_creation_tokens: u64,
    pub cache_read_tokens: u64,
    pub cached_tokens: u64,
    pub reasoning_tokens: u64,
    pub tool_tokens: u64,
    pub total_tokens: u64,
    pub web_search_requests: u64,
    pub speed: Option<String>,
}

impl Usage {
    /// The `k`-th counter, in the order of [`SessionModelMeta::counter`].
    pub open spec fn counter(self, k: int) -> u64 {
        if k == 0 {
            self.input_tokens
        } else if k == 1 {
            self.output_tokens
        } else if k == 2 {
            self.cache_creation_tokens
        } else if k == 3 {
            self.cache_read_tokens
        } else if k == 4 {
            self.cached_tokens
        } else if k == 5 {
            self.reasoning_tokens
        } else if k == 6 {
            self.tool_tokens
        } else if k == 7 {
            self.total_tokens
        } else {
            self.web_search_requests
        }
    }
}

/// A state change.
#[derive(Debug, Clone, PartialEq, Eq)]
pub struct State {
    pub kind: String,
    pub value_json: Option<String>,
}

/// A snapshot of some state.
#[derive(Debug, Clone, PartialEq, Eq)]
pub struct Snapshot {
    pub kind: String,
    pub value_json: String,
}

/// A record that no parser understood, kept raw.
#[derive(Debug, Clone, PartialEq, Eq)]
pub struct Unknown {
    pub kind: String,
    pub raw_json: String,
}

/// A block of message content.
#[derive(Debug, Clone, PartialEq, Eq)]
pub enum ContentBlock {
    Text(TextBlock),
    Image(ImageBlock),
    Thinking(ThinkingBlock),
    ToolUse(ToolUseBlock),
    ToolResult(ToolResultBlock),
    Raw(RawBlock),
}

#[derive(Debug, Clone, PartialEq, Eq)]
pub struct TextBlock {
    pub text: String,
}

#[derive(Debug, Clone, PartialEq, Eq)]
pub struct ImageBlock {
    pub image_url: String,
}

#[derive(Debug, Clone, PartialEq, Eq)]
pub struct ThinkingBlock {
    pub text: String,
}

#[derive(Debug, Clone, PartialEq, Eq)]
pub struct ToolUseBlock {
    pub id: Option<String>,
    pub name: String,
    pub input_json: Option<String>,
    pub command: Option<String>,
    pub file_path: Option<String>,
    pub lines_added: u64,
    pub lines_removed: u64,
}

#[derive(Debug, Clone, PartialEq, Eq)]
pub struct ToolResultBlock {
    pub tool_use_id: Option<String>,
    pub content: String,
    pub is_error: bool,
}

#[derive(Debug, Clone, PartialEq, Eq)]
pub struct RawBlock {
    pub kind: String,
    pub raw_json: String,
}

/// An event from `actor` carrying `body` at `timestamp`, with no
/// identifiers.
pub fn event(actor: Actor, body: Body, timestamp: Option<String>) -> (e: Event)
    ensures
        e.actor == actor,
        e.body == body,
        e.timestamp == timestamp,
        e.id is None,
        e.turn_id is None,
        e.op_id is None,
        e.parent_op_id is None,
{
    Event { id: None, timestamp, actor, turn_id: None, op_id: None, parent_op_id: None, body }
}


/// The model that event `e` names for the per-model summary: the model of a
/// response from the assistant, or the model of a usage record.
pub open spec fn named_model(e: Event) -> Option<Seq<char>> {
    match e.body {
        Body::Response(r) => if e.actor is Assistant && r.model is Some {
            Some(r.model->0@)
        } else {
            None
        },
        Body::Usage(u) => if u.model is Some {
            Some(u.model->0@)
        } else {
            None
        },
        _ => None,
    }
}

/// Whether some event of `events` names the model `m`.
pub open spec fn mentions_model(events: Seq<Event>, m: Seq<char>) -> bool {
    exists|j: int| 0 <= j < events.len() && #[trigger] named_model(events[j]) == Some(m)
}

/// What event `e` adds to counter `k` of model `m`: the counter of a usage
/// record for `m`, and nothing otherwise.
pub open spec fn usage_added(e: Event, m: Seq<char>, k: int) -> int {
    match e.body {
        Body::Usage(u) => if u.model is Some && u.model->0@ == m {
            u.counter(k) as int
        } else {
            0
        },
        _ => 0,
    }
}

/// Counter `k` of model `m` summed over the usage records of `events`.
pub open spec fn usage_total(events: Seq<Event>, m: Seq<char>, k: int) -> int
    decreases events.len(),
{
    if events.len() == 0 {
        0
    } else {
        usage_total(events.drop_last(), m, k) + usage_added(events.last(), m, k)
    }
}

/// Summaries ordered strictly by model name: each model occurs once.
pub open spec fn sorted_models(s: Seq<SessionModelMeta>) -> bool {
    forall|a: int, b: int|
        0 <= a < b < s.len() ==> seq_less(#[trigger] s[a].model@, #[trigger] s[b].model@)
}

/// Whether some summary of `s` is for the model `m`.
pub open spec fn has_model(s: Seq<SessionModelMeta>, m: Seq<char>) -> bool {
    exists|a: int| 0 <= a < s.len() && #[trigger] s[a].model@ == m
}

/// A usage total is at least the total over any prefix of the events.
pub proof fn lemma_usage_total_prefix(events: Seq<Event>, n: int, m: Seq<char>, k: int)
    requires
        0 <= n <= events.len(),
    ensures
        0 <= usage_total(events.take(n), m, k) <= usage_total(events, m, k),
    decreases events.len(),
{
    if n == events.len() {
        assert(events.take(n) =~= events);
        lemma_usage_total_nonneg(events, m, k);
    } else {
        assert(events.drop_last().take(n) =~= events.take(n));
        lemma_usage_total_prefix(events.drop_last(), n, m, k);
    }
}

proof fn lemma_usage_total_nonneg(events: Seq<Event>, m: Seq<char>, k: int)
    ensures
        usage_total(events, m, k) >= 0,
    decreases events.len(),
{
    if events.len() > 0 {
        lemma_usage_total_nonneg(events.drop_last(), m, k);
    }
}

/// A model that no event names has no usage.
pub proof fn lemma_usage_total_unmentioned(events: Seq<Event>, m: Seq<char>, k: int)
    requires
        !mentions_model(events, m),
    ensures
        usage_total(events, m, k) == 0,
    decreases events.len(),
{
    if events.len() > 0 {
        let last = events.len() - 1;
        assert(named_model(events[last]) != Some(m));
        assert forall|j: int| 0 <= j < events.drop_last().len() implies #[trigger] named_model(
            events.drop_last()[j],
        ) != Some(m) by {
            assert(events.drop_last()[j] == events[j]);
        }
        lemma_usage_total_unmentioned(events.drop_last(), m, k);
    }
}

/// Counter `k` of `meta`, read at run time.
fn meta_counter(meta: &SessionModelMeta, k: usize) -> (c: u64)
    ensures
        c == meta.counter(k as int),
{
    if k == 0 {
        meta.input_tokens
    } else if k == 1 {
        meta.output_tokens
    } else if k == 2 {
        meta.cache_creation_tokens
    } else if k == 3 {
        meta.cache_read_tokens
    } else if k == 4 {
        meta.cached_tokens
    } else if k == 5 {
        meta.reasoning_tokens
    } else if k == 6 {
        meta.tool_tokens
    } else if k == 7 {
        meta.total_tokens
    } else {
        meta.web_search_requests
    }
}

/// `meta` with the counters of `usage` added.
fn add_usage(meta: &SessionModelMeta, usage: &Usage) -> (sum: SessionModelMeta)
    requires
        forall|k: int| 0 <= k < COUNTERS ==> #[trigger] meta.counter(k) + usage.counter(k) <= u64::MAX,
    ensures
        sum.model@ == meta.model@,
        forall|k: int| 0 <= k < COUNTERS ==> #[trigger] sum.counter(k) == meta.counter(k) + usage.counter(k),
{
    assert(meta.counter(0) + usage.counter(0) <= u64::MAX);
    assert(meta.counter(1) + usage.counter(1) <= u64::MAX);
    assert(meta.counter(2) + usage.counter(2) <= u64::MAX);
    assert(meta.counter(3) + usage.counter(3) <= u64::MAX);
    assert(meta.counter(4) + usage.counter(4) <= u64::MAX);
    assert(meta.counter(5) + usage.counter(5) <= u64::MAX);
    assert(meta.counter(6) + usage.counter(6) <= u64::MAX);
    assert(meta.counter(7) + usage.counter(7) <= u64::MAX);
    assert(meta.counter(8) + usage.counter(8) <= u64::MAX);
    SessionModelMeta {
        model: meta.model.clone(),
        input_tokens: meta.input_tokens + usage.input_tokens,
        output_tokens: meta.output_tokens + usage.output_tokens,
        cache_creation_tokens: meta.cache_creation_tokens + usage.cache_creation_tokens,
        cache_read_tokens: meta.cache_read_tokens + usage.cache_read_tokens,
        cached_tokens: meta.cached_tokens + usage.cached_tokens,
        reasoning_tokens: meta.reasoning_tokens + usage.reasoning_tokens,
        tool_tokens: meta.tool_tokens + usage.tool_tokens,
        total_tokens: meta.total_tokens + usage.total_tokens,
        web_search_requests: meta.web_search_requests + usage.web_search_requests,
    }
}

/// Finds the summary of `model` in `by_model`, adding a zero summary at its
/// place in the order where there is none. Returns its position.
#[verifier::spinoff_prover]
fn ensure_model(by_model: &mut Vec<SessionModelMeta>, model: &String) -> (pos: usize)
    requires
        sorted_models(old(by_model)@),
    ensures
        sorted_models(final(by_model)@),
        pos < final(by_model)@.len(),
        final(by_model)@[pos as int].model@ == model@,
        has_model(old(by_model)@, model@) ==> final(by_model)@ == old(by_model)@,
        !has_model(old(by_model)@, model@) ==> {
            &&& pos <= old(by_model)@.len()
            &&& final(by_model)@ == old(by_model)@.insert(pos as int, final(by_model)@[pos as int])
            &&& forall|k: int| 0 <= k < COUNTERS ==> #[trigger] final(by_model)@[pos as int].counter(k) == 0
        },
{
    let len = by_model.len();
    let mut p: usize = 0;
    while p < len && precedes(by_model[p].model.as_str(), model.as_str())
        invariant
            len == by_model@.len(),
            p <= len,
            forall|j: int| 0 <= j < p ==> seq_less(#[trigger] by_model@[j].model@, model@),
        decreases len - p,
    {
        p = p + 1;
    }
    let found = p < len && by_model[p].model == *model;
    if found {
        return p;
    }
    proof {
        if p < len {
            lemma_seq_less_total(by_model@[p as int].model@, model@);
            assert forall|j: int| p <= j < len implies seq_less(model@, #[trigger] by_model@[j].model@) by {
                if j > p {
                    lemma_seq_less_transitive(model@, by_model@[p as int].model@, by_model@[j].model@);
                }
            }
        }
        assert forall|a: int| 0 <= a < len implies #[trigger] by_model@[a].model@ != model@ by {
            lemma_seq_less_irreflexive(model@);
        }
    }
    let ghost before = by_model@;
    by_model.insert(p, SessionModelMeta::zero(model.clone()));
    proof {
        let after = by_model@;
        assert forall|a: int, b: int| 0 <= a < b < after.len() implies seq_less(
            #[trigger] after[a].model@,
            #[trigger] after[b].model@,
        ) by {
            if b < p {
                assert(after[a] == before[a] && after[b] == before[b]);
            } else if b == p {
                assert(after[a] == before[a]);
            } else if a == p {
                assert(after[b] == before[b - 1]);
            } else if a < p {
                assert(after[a] == before[a] && after[b] == before[b - 1]);
                lemma_seq_less_transitive(before[a].model@, model@, before[b - 1].model@);
            } else {
                assert(after[a] == before[a - 1] && after[b] == before[b - 1]);
            }
        }
    }
    p
}

/// `v` summarises `events`: ordered by model name, one summary for each
/// model that the events name and for no other, each counter the sum of that
/// counter over the usage records of its model.
pub open spec fn summarizes(v: Seq<SessionModelMeta>, events: Seq<Event>) -> bool {
    &&& sorted_models(v)
    &&& forall|m: Seq<char>|
        #![trigger has_model(v, m)]
        #![trigger mentions_model(events, m)]
        has_model(v, m) <==> mentions_model(events, m)
    &&& forall|a: int, k: int|
        0 <= a < v.len() && 0 <= k < COUNTERS ==> #[trigger] v[a].counter(k) == usage_total(
            events,
            v[a].model@,
            k,
        )
}

/// How one more event changes the models named and the usage totals.
proof fn lemma_one_more_event(prefix: Seq<Event>, next: Seq<Event>, e: Event)
    requires
        next.len() == prefix.len() + 1,
        next.drop_last() == prefix,
        next.last() == e,
    ensures
        forall|m: Seq<char>|
            #[trigger] mentions_model(next, m) <==> (mentions_model(prefix, m) || named_model(e)
                == Some(m)),
        forall|m: Seq<char>, k: int|
            #[trigger] usage_total(next, m, k) == usage_total(prefix, m, k) + usage_added(e, m, k),
{
    assert forall|m: Seq<char>| #[trigger]
        mentions_model(next, m) <==> (mentions_model(prefix, m) || named_model(e) == Some(m)) by {
        if mentions_model(next, m) {
            let j = choose|j: int| 0 <= j < next.len() && #[trigger] named_model(next[j]) == Some(m);
            if j < prefix.len() {
                assert(prefix[j] == next[j]);
            }
        }
        if mentions_model(prefix, m) {
            let j = choose|j: int| 0 <= j < prefix.len() && #[trigger] named_model(prefix[j]) == Some(m);
            assert(prefix[j] == next[j]);
        }
        if named_model(e) == Some(m) {
            assert(named_model(next[prefix.len() as int]) == Some(m));
        }
    }
}

/// An event that adds no usage keeps the summaries, once its model, if any,
/// has one.
proof fn lemma_step_without_usage(
    prefix: Seq<Event>,
    next: Seq<Event>,
    e: Event,
    v: Seq<SessionModelMeta>,
)
    requires
        next.len() == prefix.len() + 1,
        next.drop_last() == prefix,
        next.last() == e,
        forall|m: Seq<char>, k: int| #[trigger] usage_added(e, m, k) == 0,
        sorted_models(v),
        forall|m: Seq<char>|
            #[trigger] has_model(v, m) <==> (mentions_model(prefix, m) || named_model(e) == Some(m)),
        forall|a: int, k: int|
            0 <= a < v.len() && 0 <= k < COUNTERS ==> #[trigger] v[a].counter(k) == usage_total(
                prefix,
                v[a].model@,
                k,
            ),
    ensures
        summarizes(v, next),
{
    lemma_one_more_event(prefix, next, e);
    assert forall|a: int, k: int| 0 <= a < v.len() && 0 <= k < COUNTERS implies #[trigger] v[a].counter(k)
        == usage_total(next, v[a].model@, k) by {
        assert(usage_added(e, v[a].model@, k) == 0);
    }
}

/// A usage record for `model` adds its counters to the summary of `model`
/// and to no other.
proof fn lemma_step_with_usage(
    prefix: Seq<Event>,
    next: Seq<Event>,
    e: Event,
    u: Usage,
    model: Seq<char>,
    v: Seq<SessionModelMeta>,
    w: Seq<SessionModelMeta>,
    pos: int,
)
    requires
        next.len() == prefix.len() + 1,
        next.drop_last() == prefix,
        next.last() == e,
        e.body == Body::Usage(u),
        u.model is Some,
        u.model->0@ == model,
        sorted_models(v),
        forall|m: Seq<char>|
            #[trigger] has_model(v, m) <==> (mentions_model(prefix, m) || named_model(e) == Some(m)),
        forall|a: int, k: int|
            0 <= a < v.len() && 0 <= k < COUNTERS ==> #[trigger] v[a].counter(k) == usage_total(
                prefix,
                v[a].model@,
                k,
            ),
        0 <= pos < v.len(),
        v[pos].model@ == model,
        w == v.update(pos, w[pos]),
        w[pos].model@ == model,
        forall|k: int| 0 <= k < COUNTERS ==> #[trigger] w[pos].counter(k) == v[pos].counter(k) + u.counter(k),
    ensures
        summarizes(w, next),
{
    lemma_one_more_event(prefix, next, e);
    assert forall|a: int, b: int| 0 <= a < b < w.len() implies seq_less(
        #[trigger] w[a].model@,
        #[trigger] w[b].model@,
    ) by {
        assert(w[a].model@ == v[a].model@ && w[b].model@ == v[b].model@);
    }
    assert forall|m: Seq<char>| #[trigger] has_model(w, m) <==> has_model(v, m) by {
        if has_model(w, m) {
            let a = choose|a: int| 0 <= a < w.len() && #[trigger] w[a].model@ == m;
            assert(v[a].model@ == m);
        }
        if has_model(v, m) {
            let a = choose|a: int| 0 <= a < v.len() && #[trigger] v[a].model@ == m;
            assert(w[a].model@ == m);
        }
    }
    assert forall|a: int, k: int| 0 <= a < w.len() && 0 <= k < COUNTERS implies #[trigger] w[a].counter(k)
        == usage_total(next, w[a].model@, k) by {
        if a == pos {
            assert(usage_added(e, model, k) == u.counter(k));
        } else {
            assert(w[a] == v[a]);
            assert(v[a].model@ != model) by {
                lemma_seq_less_irreflexive(model);
                if a < pos {
                    assert(seq_less(v[a].model@, v[pos].model@));
                } else {
                    assert(seq_less(v[pos].model@, v[a].model@));
                }
            }
            assert(usage_added(e, v[a].model@, k) == 0);
        }
    }
}

/// Finding or adding the summary of a model keeps the summaries of the
/// other models and gives the new one the totals of an unnamed model.
#[verifier::spinoff_prover]
proof fn lemma_model_ensured(
    prefix: Seq<Event>,
    v: Seq<SessionModelMeta>,
    w: Seq<SessionModelMeta>,
    pos: int,
    model: Seq<char>,
)
    requires
        summarizes(v, prefix),
        0 <= pos < w.len(),
        w[pos].model@ == model,
        has_model(v, model) ==> w == v,
        !has_model(v, model) ==> {
            &&& pos <= v.len()
            &&& w == v.insert(pos, w[pos])
            &&& forall|k: int| 0 <= k < COUNTERS ==> #[trigger] w[pos].counter(k) == 0
        },
    ensures
        forall|m: Seq<char>|
            #[trigger] has_model(w, m) <==> (mentions_model(prefix, m) || m == model),
        forall|a: int, k: int|
            0 <= a < w.len() && 0 <= k < COUNTERS ==> #[trigger] w[a].counter(k) == usage_total(
                prefix,
                w[a].model@,
                k,
            ),
{
    if has_model(v, model) {
        assert(mentions_model(prefix, model));
    } else {
        assert(!mentions_model(prefix, model));
        assert forall|m: Seq<char>| #[trigger] has_model(w, m) <==> (has_model(v, m) || m == model) by {
            if has_model(w, m) {
                let a = choose|a: int| 0 <= a < w.len() && #[trigger] w[a].model@ == m;
                if a < pos {
                    assert(v[a] == w[a]);
                } else if a > pos {
                    assert(v[a - 1] == w[a]);
                }
            }
            if has_model(v, m) {
                let b = choose|b: int| 0 <= b < v.len() && #[trigger] v[b].model@ == m;
                if b < pos {
                    assert(w[b] == v[b]);
                } else {
                    assert(w[b + 1] == v[b]);
                }
            }
            if m == model {
                assert(w[pos].model@ == m);
            }
        }
        assert forall|a: int, k: int| 0 <= a < w.len() && 0 <= k < COUNTERS implies #[trigger] w[a].counter(k)
            == usage_total(prefix, w[a].model@, k) by {
            if a == pos {
                lemma_usage_total_unmentioned(prefix, model, k);
            } else if a < pos {
                assert(w[a] == v[a]);
            } else {
                assert(w[a] == v[a - 1]);
            }
        }
    }
}

/// Per-model token usage over `events`: one summary for each model that an
/// assistant response or a usage record names, ordered by model name, with
/// each counter summed over the usage records of that model.
pub fn summarize_models(events: &[Event]) -> (summary: Vec<SessionModelMeta>)
    requires
        forall|m: Seq<char>, k: int|
            0 <= k < COUNTERS ==> #[trigger] usage_total(events@, m, k) <= u64::MAX,
    ensures
        summarizes(summary@, events@),
{
    let mut by_model: Vec<SessionModelMeta> = Vec::new();
    let mut i: usize = 0;
    assert(summarizes(by_model@, events@.take(0))) by {
        assert forall|m: Seq<char>| !mentions_model(events@.take(0), m) by {}
        assert forall|m: Seq<char>| !has_model(by_model@, m) by {}
    }
    while i < events.len()
        invariant
            i <= events@.len(),
            forall|m: Seq<char>, k: int|
                0 <= k < COUNTERS ==> #[trigger] usage_total(events@, m, k) <= u64::MAX,
            summarizes(by_model@, events@.take(i as int)),
        decreases events@.len() - i,
    {
        let event = &events[i];
        let ghost prefix = events@.take(i as int);
        let ghost next = events@.take(i + 1);
        let ghost before = by_model@;
        assert(next.drop_last() =~= prefix);
        assert(next.last() == *event);
        match &event.body {
            Body::Response(response) => {
                let assistant = match event.actor {
                    Actor::Assistant => true,
                    _ => false,
                };
                let mut named = false;
                if assistant {
                    match &response.model {
                        Some(model) => {
                            let pos = ensure_model(&mut by_model, model);
                            proof {
                                lemma_model_ensured(prefix, before, by_model@, pos as int, model@);
                            }
                            named = true;
                        },
                        None => {},
                    }
                }
                proof {
                    if !named {
                        assert(named_model(*event) is None);
                    }
                    lemma_step_without_usage(prefix, next, *event, by_model@);
                }
            },
            Body::Usage(usage) => {
                match &usage.model {
                    Some(model) => {
                        let pos = ensure_model(&mut by_model, model);
                        let ghost mid = by_model@;
                        proof {
                            lemma_model_ensured(prefix, before, mid, pos as int, model@);
                            assert forall|k: int| 0 <= k < COUNTERS implies #[trigger] mid[pos as int].counter(k)
                                + usage.counter(k) <= u64::MAX by {
                                lemma_one_more_event(prefix, next, *event);
                                lemma_usage_total_prefix(events@, i + 1, model@, k);
                                assert(usage_added(*event, model@, k) == usage.counter(k));
                            }
                        }
                        let updated = add_usage(&by_model[pos], usage);
                        by_model.set(pos, updated);
                        proof {
                            lemma_step_with_usage(
                                prefix,
                                next,
                                *event,
                                *usage,
                                model@,
                                mid,
                                by_model@,
                                pos as int,
                            );
                        }
                    },
                    None => {
                        proof {
                            lemma_step_without_usage(prefix, next, *event, by_model@);
                        }
                    },
                }
            },
            _ => {
                proof {
                    lemma_step_without_usage(prefix, next, *event, by_model@);
                }
            },
        }
        i = i + 1;
    }
    assert(events@.take(events@.len() as int) =~= events@);
    by_model
}


/// The non-empty texts of the text blocks of `blocks`, in order.
pub open spec fn text_parts(blocks: Seq<ContentBlock>) -> Seq<Seq<char>>
    decreases blocks.len(),
{
    if blocks.len() == 0 {
        seq![]
    } else {
        let rest = text_parts(blocks.drop_last());
        match blocks.last() {
            ContentBlock::Text(b) => if b.text@.len() > 0 {
                rest.push(b.text@)
            } else {
                rest
            },
            _ => rest,
        }
    }
}

/// `parts` joined with single spaces between them.
pub open spec fn join_spaced(parts: Seq<Seq<char>>) -> Seq<char>
    decreases parts.len(),
{
    if parts.len() == 0 {
        seq![]
    } else if parts.len() == 1 {
        parts[0]
    } else {
        join_spaced(parts.drop_last()) + seq![' '] + parts.last()
    }
}

/// The text of a message: its non-empty text blocks joined with spaces, or
/// `None` where it has none.
pub fn text_from_blocks(blocks: &[ContentBlock]) -> (text: Option<String>)
    ensures
        match text {
            None => text_parts(blocks@).len() == 0,
            Some(t) => text_parts(blocks@).len() > 0 && t@ == join_spaced(text_parts(blocks@)),
        },
{
    let mut out = String::new();
    let mut any = false;
    let mut i: usize = 0;
    let space = " ";
    proof {
        reveal_strlit(" ");
    }
    assert(space@ =~= seq![' ']);
    while i < blocks.len()
        invariant
            i <= blocks@.len(),
            space@ == seq![' '],
            any == (text_parts(blocks@.take(i as int)).len() > 0),
            out@ == join_spaced(text_parts(blocks@.take(i as int))),
        decreases blocks@.len() - i,
    {
        let ghost prev = text_parts(blocks@.take(i as int));
        assert(blocks@.take(i + 1).drop_last() =~= blocks@.take(i as int));
        assert(blocks@.take(i + 1).last() == blocks@[i as int]);
        match &blocks[i] {
            ContentBlock::Text(block) => {
                if !block.text.as_str().is_empty() {
                    let ghost parts = prev.push(block.text@);
                    if any {
                        out.append(space);
                        assert(parts.drop_last() =~= prev);
                    } else {
                        assert(parts =~= seq![block.text@]);
                    }
                    out.append(block.text.as_str());
                    any = true;
                }
            },
            _ => {},
        }
        i = i + 1;
    }
    assert(blocks@.take(blocks@.len() as int) =~= blocks@);
    if any {
        Some(out)
    } else {
        None
    }
}

/// The earlier of two optional timestamps; a present one wins over an
/// absent one.
pub open spec fn earlier(a: Option<Seq<char>>, b: Option<Seq<char>>) -> Option<Seq<char>> {
    match (a, b) {
        (Some(x), Some(y)) => if seq_less(y, x) { Some(y) } else { Some(x) },
        (Some(x), None) => Some(x),
        (None, _) => b,
    }
}

/// The later of two optional timestamps; a present one wins over an absent
/// one.
pub open spec fn later(a: Option<Seq<char>>, b: Option<Seq<char>>) -> Option<Seq<char>> {
    match (a, b) {
        (Some(x), Some(y)) => if seq_less(x, y) { Some(y) } else { Some(x) },
        (Some(x), None) => Some(x),
        (None, _) => b,
    }
}

/// The timestamp of `e`, as characters.
pub open spec fn stamp(e: Event) -> Option<Seq<char>> {
    match e.timestamp {
        Some(t) => Some(t@),
        None => None,
    }
}

/// The least timestamp of `events` in string order, if any has one.
pub open spec fn min_timestamp(events: Seq<Event>) -> Option<Seq<char>>
    decreases events.len(),
{
    if events.len() == 0 {
        None
    } else {
        earlier(min_timestamp(events.drop_last()), stamp(events.last()))
    }
}

/// The greatest timestamp of `events` in string order, if any has one.
pub open spec fn max_timestamp(events: Seq<Event>) -> Option<Seq<char>>
    decreases events.len(),
{
    if events.len() == 0 {
        None
    } else {
        later(max_timestamp(events.drop_last()), stamp(events.last()))
    }
}

/// The optional string `s` as characters.
pub open spec fn opt_chars(s: Option<String>) -> Option<Seq<char>> {
    match s {
        Some(t) => Some(t@),
        None => None,
    }
}

/// The earliest timestamp of the events, in string order.
pub fn earliest_timestamp(events: &[Event]) -> (t: Option<String>)
    ensures
        opt_chars(t) == min_timestamp(events@),
{
    let mut best: Option<String> = None;
    let mut i: usize = 0;
    while i < events.len()
        invariant
            i <= events@.len(),
            opt_chars(best) == min_timestamp(events@.take(i as int)),
        decreases events@.len() - i,
    {
        assert(events@.take(i + 1).drop_last() =~= events@.take(i as int));
        assert(events@.take(i + 1).last() == events@[i as int]);
        match &events[i].timestamp {
            Some(ts) => {
                let replace = match &best {
                    None => true,
                    Some(b) => precedes(ts.as_str(), b.as_str()),
                };
                if replace {
                    best = Some(ts.clone());
                }
            },
            None => {},
        }
        i = i + 1;
    }
    assert(events@.take(events@.len() as int) =~= events@);
    best
}

/// The latest timestamp of the events, in string order.
pub fn latest_timestamp(events: &[Event]) -> (t: Option<String>)
    ensures
        opt_chars(t) == max_timestamp(events@),
{
    let mut best: Option<String> = None;
    let mut i: usize = 0;
    while i < events.len()
        invariant
            i <= events@.len(),
            opt_chars(best) == max_timestamp(events@.take(i as int)),
        decreases events@.len() - i,
    {
        assert(events@.take(i + 1).drop_last() =~= events@.take(i as int));
        assert(events@.take(i + 1).last() == events@[i as int]);
        match &events[i].timestamp {
            Some(ts) => {
                let replace = match &best {
                    None => true,
                    Some(b) => precedes(b.as_str(), ts.as_str()),
                };
                if replace {
                    best = Some(ts.clone());
                }
            },
            None => {},
        }
        i = i + 1;
    }
    assert(events@.take(events@.len() as int) =~= events@);
    best
}

impl ParseSelection {
    /// Whether the selection keeps events with this body.
    pub open spec fn selects(self, body: Body) -> bool {
        match body {
            Body::Prompt(_) | Body::Response(_) => self.messages,
            Body::Operation(_) => self.operations,
            Body::Usage(_) => self.usage,
            Body::State(_) => self.state,
            Body::Snapshot(_) => self.snapshots,
            Body::Unknown(_) => self.raw_unknown,
        }
    }

    /// Whether the selection keeps events with this body.
    pub fn includes_body(self, body: &Body) -> (b: bool)
        ensures
            b == self.selects(*body),
            (*body is Prompt || *body is Response) ==> b == self.messages,
            *body is Operation ==> b == self.operations,
            *body is Usage ==> b == self.usage,
            *body is State ==> b == self.state,
            *body is Snapshot ==> b == self.snapshots,
            *body is Unknown ==> b == self.raw_unknown,
    {
        match body {
            Body::Prompt(_) | Body::Response(_) => self.includes_messages(),
            Body::Operation(_) => self.includes_operations(),
            Body::Usage(_) => self.includes_usage(),
            Body::State(_) => self.includes_state(),
            Body::Snapshot(_) => self.includes_snapshots(),
            Body::Unknown(_) => self.includes_raw_unknown(),
        }
    }
}

/// The events of `events` that `selection` keeps, in order.
pub open spec fn selected_events(events: Seq<Event>, selection: ParseSelection) -> Seq<Event> {
    events.filter(|e: Event| selection.selects(e.body))
}

/// `session` reduced to what `selection` keeps: unchanged under a full
/// selection; otherwise with blank metadata unless the metadata is kept, and
/// with only the events whose body the selection keeps.
pub fn filter_selection(session: Session, selection: ParseSelection) -> (kept: Session)
    ensures
        selection.keeps_all() ==> kept == session,
        kept.agent == session.agent,
        kept.version == session.version,
        selection.meta ==> kept.meta == session.meta,
        !selection.meta ==> kept.meta.is_blank(),
        kept.events@ == selected_events(session.events@, selection),
{
    if selection.is_full() {
        proof {
            lemma_select_all(session.events@, selection);
        }
        return session;
    }
    let Session { agent, version, meta, events } = session;
    let meta = if selection.includes_meta() {
        meta
    } else {
        SessionMeta::default()
    };
    let mut kept: Vec<Event> = Vec::new();
    let ghost all = events@;
    for e in it: events
        invariant
            it.seq() == all,
            kept@ == selected_events(all.take(it.index()), selection),
    {
        proof {
            reveal_with_fuel(Seq::filter, 1);
            assert(all.take(it.index() + 1).drop_last() =~= all.take(it.index()));
        }
        if selection.includes_body(&e.body) {
            kept.push(e);
        }
    }
    assert(all.take(all.len() as int) =~= all);
    Session { agent, version, meta, events: kept }
}

/// A selection that keeps everything keeps every event.
pub proof fn lemma_select_all(events: Seq<Event>, selection: ParseSelection)
    requires
        selection.keeps_all(),
    ensures
        selected_events(events, selection) == events,
    decreases events.len(),
{
    reveal_with_fuel(Seq::filter, 1);
    if events.len() > 0 {
        lemma_select_all(events.drop_last(), selection);
        assert(events.drop_last().push(events.last()) =~= events);
    }
}

/// Whether some event of `events` has the timestamp `t`.
pub open spec fn has_stamp(events: Seq<Event>, t: Seq<char>) -> bool {
    exists|j: int| 0 <= j < events.len() && #[trigger] stamp(events[j]) == Some(t)
}

/// The earliest timestamp is absent exactly when no event has one;
/// otherwise it is the timestamp of some event and no event has an earlier
/// one.
pub proof fn law_min_timestamp_is_least(events: Seq<Event>)
    ensures
        min_timestamp(events) is None <==> forall|j: int|
            0 <= j < events.len() ==> #[trigger] stamp(events[j]) is None,
        min_timestamp(events) matches Some(t) ==> {
            &&& has_stamp(events, t)
            &&& forall|j: int|
                0 <= j < events.len() && #[trigger] stamp(events[j]) is Some ==> !seq_less(
                    stamp(events[j])->0,
                    t,
                )
        },
    decreases events.len(),
{
    if events.len() > 0 {
        let prev = events.drop_last();
        let last = events.len() - 1;
        law_min_timestamp_is_least(prev);
        assert forall|j: int| 0 <= j < prev.len() implies prev[j] == events[j] by {}
        match (min_timestamp(prev), stamp(events[last])) {
            (Some(x), Some(y)) => {
                lemma_seq_less_total(x, y);
                if seq_less(y, x) {
                    assert(stamp(events[last]) == Some(y));
                    assert forall|j: int|
                        0 <= j < events.len() && #[trigger] stamp(events[j]) is Some implies !seq_less(
                        stamp(events[j])->0,
                        y,
                    ) by {
                        if j < last {
                            assert(stamp(prev[j]) == stamp(events[j]));
                            if seq_less(stamp(events[j])->0, y) {
                                lemma_seq_less_transitive(stamp(events[j])->0, y, x);
                            }
                        } else {
                            lemma_seq_less_irreflexive(y);
                        }
                    }
                } else {
                    let j0 = choose|j: int| 0 <= j < prev.len() && #[trigger] stamp(prev[j]) == Some(x);
                    assert(stamp(events[j0]) == Some(x));
                    assert forall|j: int|
                        0 <= j < events.len() && #[trigger] stamp(events[j]) is Some implies !seq_less(
                        stamp(events[j])->0,
                        x,
                    ) by {
                        if j < last {
                            assert(stamp(prev[j]) == stamp(events[j]));
                        }
                    }
                }
            },
            (Some(x), None) => {
                let j0 = choose|j: int| 0 <= j < prev.len() && #[trigger] stamp(prev[j]) == Some(x);
                assert(stamp(events[j0]) == Some(x));
                assert forall|j: int|
                    0 <= j < events.len() && #[trigger] stamp(events[j]) is Some implies !seq_less(
                    stamp(events[j])->0,
                    x,
                ) by {
                    if j < last {
                        assert(stamp(prev[j]) == stamp(events[j]));
                    }
                }
            },
            (None, Some(y)) => {
                assert(stamp(events[last]) == Some(y));
                assert forall|j: int|
                    0 <= j < events.len() && #[trigger] stamp(events[j]) is Some implies !seq_less(
                    stamp(events[j])->0,
                    y,
                ) by {
                    if j < last {
                        assert(stamp(prev[j]) == stamp(events[j]));
                    } else {
                        lemma_seq_less_irreflexive(y);
                    }
                }
            },
            (None, None) => {
                assert forall|j: int| 0 <= j < events.len() implies #[trigger] stamp(events[j]) is None by {
                    if j < last {
                        assert(stamp(prev[j]) == stamp(events[j]));
                    }
                }
            },
        }
    }
}

/// The latest timestamp is absent exactly when no event has one; otherwise
/// it is the timestamp of some event and no event has a later one.
pub proof fn law_max_timestamp_is_greatest(events: Seq<Event>)
    ensures
        max_timestamp(events) is None <==> forall|j: int|
            0 <= j < events.len() ==> #[trigger] stamp(events[j]) is None,
        max_timestamp(events) matches Some(t) ==> {
            &&& has_stamp(events, t)
            &&& forall|j: int|
                0 <= j < events.len() && #[trigger] stamp(events[j]) is Some ==> !seq_less(
                    t,
                    stamp(events[j])->0,
                )
        },
    decreases events.len(),
{
    if events.len() > 0 {
        let prev = events.drop_last();
        let last = events.len() - 1;
        law_max_timestamp_is_greatest(prev);
        assert forall|j: int| 0 <= j < prev.len() implies prev[j] == events[j] by {}
        match (max_timestamp(prev), stamp(events[last])) {
            (Some(x), Some(y)) => {
                lemma_seq_less_total(x, y);
                if seq_less(x, y) {
                    assert(stamp(events[last]) == Some(y));
                    assert forall|j: int|
                        0 <= j < events.len() && #[trigger] stamp(events[j]) is Some implies !seq_less(
                        y,
                        stamp(events[j])->0,
                    ) by {
                        if j < last {
                            assert(stamp(prev[j]) == stamp(events[j]));
                            if seq_less(y, stamp(events[j])->0) {
                                lemma_seq_less_transitive(x, y, stamp(events[j])->0);
                            }
                        } else {
                            lemma_seq_less_irreflexive(y);
                        }
                    }
                } else {
                    let j0 = choose|j: int| 0 <= j < prev.len() && #[trigger] stamp(prev[j]) == Some(x);
                    assert(stamp(events[j0]) == Some(x));
                    assert forall|j: int|
                        0 <= j < events.len() && #[trigger] stamp(events[j]) is Some implies !seq_less(
                        x,
                        stamp(events[j])->0,
                    ) by {
                        if j < last {
                            assert(stamp(prev[j]) == stamp(events[j]));
                        }
                    }
                }
            },
            (Some(x), None) => {
                let j0 = choose|j: int| 0 <= j < prev.len() && #[trigger] stamp(prev[j]) == Some(x);
                assert(stamp(events[j0]) == Some(x));
                assert forall|j: int|
                    0 <= j < events.len() && #[trigger] stamp(events[j]) is Some implies !seq_less(
                    x,
                    stamp(events[j])->0,
                ) by {
                    if j < last {
                        assert(stamp(prev[j]) == stamp(events[j]));
                    }
                }
            },
            (None, Some(y)) => {
                assert(stamp(events[last]) == Some(y));
                assert forall|j: int|
                    0 <= j < events.len() && #[trigger] stamp(events[j]) is Some implies !seq_less(
                    y,
                    stamp(events[j])->0,
                ) by {
                    if j < last {
                        assert(stamp(prev[j]) == stamp(events[j]));
                    } else {
                        lemma_seq_less_irreflexive(y);
                    }
                }
            },
            (None, None) => {
                assert forall|j: int| 0 <= j < events.len() implies #[trigger] stamp(events[j]) is None by {
                    if j < last {
                        assert(stamp(prev[j]) == stamp(events[j]));
                    }
                }
            },
        }
    }
}

/// The earliest and the latest timestamp are both present or both absent,
/// and the earliest never comes after the latest.
pub proof fn law_earliest_not_after_latest(events: Seq<Event>)
    ensures
        min_timestamp(events) is Some <==> max_timestamp(events) is Some,
        min_timestamp(events) matches Some(first) ==> max_timestamp(events) matches Some(last)
            && !seq_less(last, first),
{
    law_min_timestamp_is_least(events);
    law_max_timestamp_is_greatest(events);
    if min_timestamp(events) is Some {
        let first = min_timestamp(events)->0;
        let j = choose|j: int| 0 <= j < events.len() && #[trigger] stamp(events[j]) == Some(first);
        assert(stamp(events[j]) is Some);
        let last = max_timestamp(events)->0;
        let k = choose|k: int| 0 <= k < events.len() && #[trigger] stamp(events[k]) == Some(last);
        assert(stamp(events[k]) is Some);
    } else if max_timestamp(events) is Some {
        let last = max_timestamp(events)->0;
        let k = choose|k: int| 0 <= k < events.len() && #[trigger] stamp(events[k]) == Some(last);
        assert(stamp(events[k]) is Some);
    }
}

/// Selecting twice with the same selection keeps what selecting once keeps.
pub proof fn law_selection_idempotent(events: Seq<Event>, selection: ParseSelection)
    ensures
        selected_events(selected_events(events, selection), selection) == selected_events(
            events,
            selection,
        ),
    decreases events.len(),
{
    reveal_with_fuel(Seq::filter, 1);
    if events.len() > 0 {
        let prev = events.drop_last();
        law_selection_idempotent(prev, selection);
        let once = selected_events(prev, selection);
        if selection.selects(events.last().body) {
            assert(selected_events(events, selection) == once.push(events.last()));
            assert(once.push(events.last()).drop_last() =~= once);
        }
    }
}

/// `later` is associative.
proof fn lemma_later_associative(x: Option<Seq<char>>, y: Option<Seq<char>>, z: Option<Seq<char>>)
    ensures
        later(later(x, y), z) == later(x, later(y, z)),
{
    if x is Some && y is Some && z is Some {
        let (a, b, c) = (x->0, y->0, z->0);
        lemma_seq_less_total(a, b);
        lemma_seq_less_total(b, c);
        lemma_seq_less_total(a, c);
        if seq_less(a, b) && seq_less(b, c) {
            lemma_seq_less_transitive(a, b, c);
        }
        if seq_less(b, a) && seq_less(c, b) {
            lemma_seq_less_transitive(c, b, a);
        }
    }
}

/// `earlier` is associative.
proof fn lemma_earlier_associative(x: Option<Seq<char>>, y: Option<Seq<char>>, z: Option<Seq<char>>)
    ensures
        earlier(earlier(x, y), z) == earlier(x, earlier(y, z)),
{
    if x is Some && y is Some && z is Some {
        let (a, b, c) = (x->0, y->0, z->0);
        lemma_seq_less_total(a, b);
        lemma_seq_less_total(b, c);
        lemma_seq_less_total(a, c);
        if seq_less(a, b) && seq_less(b, c) {
            lemma_seq_less_transitive(a, b, c);
        }
        if seq_less(b, a) && seq_less(c, b) {
            lemma_seq_less_transitive(c, b, a);
        }
    }
}

/// The latest timestamp of two joined event lists is the later of their
/// latest timestamps.
pub proof fn law_latest_of_joined(a: Seq<Event>, b: Seq<Event>)
    ensures
        max_timestamp(a + b) == later(max_timestamp(a), max_timestamp(b)),
    decreases b.len(),
{
    if b.len() == 0 {
        assert(a + b =~= a);
    } else {
        assert((a + b).drop_last() =~= a + b.drop_last());
        assert((a + b).last() == b.last());
        law_latest_of_joined(a, b.drop_last());
        lemma_later_associative(max_timestamp(a), max_timestamp(b.drop_last()), stamp(b.last()));
    }
}

/// The earliest timestamp of two joined event lists is the earlier of their
/// earliest timestamps.
pub proof fn law_earliest_of_joined(a: Seq<Event>, b: Seq<Event>)
    ensures
        min_timestamp(a + b) == earlier(min_timestamp(a), min_timestamp(b)),
    decreases b.len(),
{
    if b.len() == 0 {
        assert(a + b =~= a);
    } else {
        assert((a + b).drop_last() =~= a + b.drop_last());
        assert((a + b).last() == b.last());
        law_earliest_of_joined(a, b.drop_last());
        lemma_earlier_associative(min_timestamp(a), min_timestamp(b.drop_last()), stamp(b.last()));
    }
}


/// The latest timestamp is read from the timestamp field of every event,
/// whatever its actor or body: where some event has a timestamp, the latest
/// is present and no event's timestamp comes after it in string order, and
/// it is the timestamp of one of the events. Where no event has one, there
/// is none.
pub proof fn law_latest_timestamp_covers_every_event(events: Seq<Event>)
    ensures
        forall|j: int|
            0 <= j < events.len() && (#[trigger] events[j].timestamp) is Some ==> {
                &&& max_timestamp(events) is Some
                &&& !seq_less(max_timestamp(events)->0, events[j].timestamp->0@)
            },
        max_timestamp(events) is Some ==> exists|j: int|
            0 <= j < events.len() && (#[trigger] events[j].timestamp) is Some
                && events[j].timestamp->0@ == max_timestamp(events)->0,
        (forall|j: int| 0 <= j < events.len() ==> (#[trigger] events[j].timestamp) is None)
            ==> max_timestamp(events) is None,
{
    law_max_timestamp_is_greatest(events);
    assert forall|j: int| 0 <= j < events.len() && (#[trigger] events[j].timestamp) is Some implies {
        &&& max_timestamp(events) is Some
        &&& !seq_less(max_timestamp(events)->0, events[j].timestamp->0@)
    } by {
        assert(stamp(events[j]) == Some(events[j].timestamp->0@));
    }
    if max_timestamp(events) is Some {
        let t = max_timestamp(events)->0;
        let j = choose|j: int| 0 <= j < events.len() && #[trigger] stamp(events[j]) == Some(t);
        assert(events[j].timestamp is Some && events[j].timestamp->0@ == t);
    }
    if forall|j: int| 0 <= j < events.len() ==> (#[trigger] events[j].timestamp) is None {
        assert forall|j: int| 0 <= j < events.len() implies #[trigger] stamp(events[j]) is None by {
            assert(events[j].timestamp is None);
        }
    }
}

/// The earliest timestamp is read from the timestamp field of every event,
/// whatever its actor or body: where some event has a timestamp, the
/// earliest is present and no event's timestamp comes before it in string
/// order, and it is the timestamp of one of the events. Where no event has
/// one, there is none.
pub proof fn law_earliest_timestamp_covers_every_event(events: Seq<Event>)
    ensures
        forall|j: int|
            0 <= j < events.len() && (#[trigger] events[j].timestamp) is Some ==> {
                &&& min_timestamp(events) is Some
                &&& !seq_less(events[j].timestamp->0@, min_timestamp(events)->0)
            },
        min_timestamp(events) is Some ==> exists|j: int|
            0 <= j < events.len() && (#[trigger] events[j].timestamp) is Some
                && events[j].timestamp->0@ == min_timestamp(events)->0,
        (forall|j: int| 0 <= j < events.len() ==> (#[trigger] events[j].timestamp) is None)
            ==> min_timestamp(events) is None,
{
    law_min_timestamp_is_least(events);
    assert forall|j: int| 0 <= j < events.len() && (#[trigger] events[j].timestamp) is Some implies {
        &&& min_timestamp(events) is Some
        &&& !seq_less(events[j].timestamp->0@, min_timestamp(events)->0)
    } by {
        assert(stamp(events[j]) == Some(events[j].timestamp->0@));
    }
    if min_timestamp(events) is Some {
        let t = min_timestamp(events)->0;
        let j = choose|j: int| 0 <= j < events.len() && #[trigger] stamp(events[j]) == Some(t);
        assert(events[j].timestamp is Some && events[j].timestamp->0@ == t);
    }
    if forall|j: int| 0 <= j < events.len() ==> (#[trigger] events[j].timestamp) is None {
        assert forall|j: int| 0 <= j < events.len() implies #[trigger] stamp(events[j]) is None by {
            assert(events[j].timestamp is None);
        }
    }
}

/// Which events a selection keeps depends on each event's body kind and on
/// the one flag for that kind alone: prompts and responses follow
/// `messages`, operations `operations`, usage records `usage`, state
/// changes `state`, snapshots `snapshots` and unknown records
/// `raw_unknown`, whatever the other flags say.
pub proof fn law_selection_follows_kind_flags(events: Seq<Event>, selection: ParseSelection)
    ensures
        forall|i: int|
            0 <= i < events.len() && ((#[trigger] events[i].body) is Prompt || events[i].body is Response)
                ==> (selected_events(events, selection).contains(events[i]) <==> selection.messages),
        forall|i: int|
            0 <= i < events.len() && (#[trigger] events[i].body) is Operation ==> (selected_events(
                events,
                selection,
            ).contains(events[i]) <==> selection.operations),
        forall|i: int|
            0 <= i < events.len() && (#[trigger] events[i].body) is Usage ==> (selected_events(
                events,
                selection,
            ).contains(events[i]) <==> selection.usage),
        forall|i: int|
            0 <= i < events.len() && (#[trigger] events[i].body) is State ==> (selected_events(
                events,
                selection,
            ).contains(events[i]) <==> selection.state),
        forall|i: int|
            0 <= i < events.len() && (#[trigger] events[i].body) is Snapshot ==> (selected_events(
                events,
                selection,
            ).contains(events[i]) <==> selection.snapshots),
        forall|i: int|
            0 <= i < events.len() && (#[trigger] events[i].body) is Unknown ==> (selected_events(
                events,
                selection,
            ).contains(events[i]) <==> selection.raw_unknown),
{
    let pred = |e: Event| selection.selects(e.body);
    let kept = selected_events(events, selection);
    assert forall|i: int| 0 <= i < events.len() implies (#[trigger] kept.contains(events[i])
        <==> selection.selects(events[i].body)) by {
        if selection.selects(events[i].body) {
            events.lemma_filter_contains(pred, i);
        }
        if kept.contains(events[i]) {
            let j = choose|j: int| 0 <= j < kept.len() && kept[j] == events[i];
            events.lemma_filter_pred(pred, j);
        }
    }
}

/// The text parts of blocks joined one after the other are the parts of
/// the first blocks followed by those of the second.
pub proof fn law_text_parts_of_joined(a: Seq<ContentBlock>, b: Seq<ContentBlock>)
    ensures
        text_parts(a + b) == text_parts(a) + text_parts(b),
    decreases b.len(),
{
    if b.len() == 0 {
        assert(a + b =~= a);
        assert(text_parts(a) + text_parts(b) =~= text_parts(a));
    } else {
        assert((a + b).drop_last() =~= a + b.drop_last());
        assert((a + b).last() == b.last());
        law_text_parts_of_joined(a, b.drop_last());
        let rest = text_parts(a) + text_parts(b.drop_last());
        match b.last() {
            ContentBlock::Text(t) => if t.text@.len() > 0 {
                assert(rest.push(t.text@) =~= text_parts(a) + text_parts(b.drop_last()).push(
                    t.text@,
                ));
            },
            _ => {},
        }
    }
}

/// A single block gives its text where it is a text block with a
/// non-empty text, and nothing otherwise: thinking, images, tool calls and
/// tool results give no text.
pub proof fn law_text_parts_of_one_block(block: ContentBlock)
    ensures
        text_parts(seq![block]) == (match block {
            ContentBlock::Text(t) => if t.text@.len() > 0 {
                seq![t.text@]
            } else {
                Seq::<Seq<char>>::empty()
            },
            _ => Seq::<Seq<char>>::empty(),
        }),
{
    let one = seq![block];
    assert(one.drop_last() =~= Seq::<ContentBlock>::empty());
    assert(one.last() == block);
    assert(text_parts(one.drop_last()) == Seq::<Seq<char>>::empty());
    match block {
        ContentBlock::Text(t) => {
            assert(Seq::<Seq<char>>::empty().push(t.text@) =~= seq![t.text@]);
        },
        _ => {},
    }
}

/// Putting a block that is not a text block anywhere among the blocks of a
/// message leaves its text as it was.
pub proof fn law_text_ignores_other_blocks(
    a: Seq<ContentBlock>,
    b: Seq<ContentBlock>,
    block: ContentBlock,
)
    requires
        !(block is Text),
    ensures
        text_parts(a + seq![block] + b) == text_parts(a + b),
        join_spaced(text_parts(a + seq![block] + b)) == join_spaced(text_parts(a + b)),
{
    law_text_parts_of_joined(a + seq![block], b);
    law_text_parts_of_joined(a, seq![block]);
    law_text_parts_of_joined(a, b);
    law_text_parts_of_one_block(block);
    assert(text_parts(a) + Seq::<Seq<char>>::empty() =~= text_parts(a));
}

/// Joining two non-empty lists of parts with spaces puts exactly one
/// space between the last part of the first and the first of the second.
pub proof fn law_join_spaced_of_joined(a: Seq<Seq<char>>, b: Seq<Seq<char>>)
    requires
        a.len() > 0,
        b.len() > 0,
    ensures
        join_spaced(a + b) == join_spaced(a) + seq![' '] + join_spaced(b),
    decreases b.len(),
{
    assert((a + b).drop_last() =~= a + b.drop_last());
    assert((a + b).last() == b.last());
    if b.len() == 1 {
        assert(a + b.drop_last() =~= a);
    } else {
        law_join_spaced_of_joined(a, b.drop_last());
        assert(join_spaced(a) + seq![' '] + join_spaced(b.drop_last()) + seq![' '] + b.last()
            =~= join_spaced(a) + seq![' '] + (join_spaced(b.drop_last()) + seq![' '] + b.last()));
    }
}

/// A single part is joined to itself.
pub proof fn law_join_spaced_of_one(x: Seq<char>)
    ensures
        join_spaced(seq![x]) == x,
{
}

} // verus!
