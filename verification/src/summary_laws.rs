//! Laws of the model summary: each of its fields is the sum of the same
//! field over the usage records of its model, and it does not depend on the
//! order of the events.

use vstd::prelude::*;
use crate::session::{
    has_model, mentions_model, named_model, sorted_models, summarizes, usage_added, usage_total,
    Body, Event, SessionModelMeta, Usage, COUNTERS,
};
use crate::text::{lemma_seq_less_irreflexive, lemma_seq_less_total, seq_less};

verus! {

proof fn lemma_usage_total_remove(s: Seq<Event>, j: int, m: Seq<char>, k: int)
    requires
        0 <= j < s.len(),
    ensures
        usage_total(s, m, k) == usage_total(s.remove(j), m, k) + usage_added(s[j], m, k),
    decreases s.len(),
{
    if j == s.len() - 1 {
        assert(s.remove(j) =~= s.drop_last());
    } else {
        lemma_usage_total_remove(s.drop_last(), j, m, k);
        assert(s.remove(j).drop_last() =~= s.drop_last().remove(j));
        assert(s.remove(j).last() == s.last());
        assert(s.drop_last()[j] == s[j]);
    }
}

/// Usage totals do not depend on the order of the events: two orderings
/// of the same events sum each counter of each model to the same total, so
/// where the totals of one ordering fit in `u64`, those of the other do too.
pub proof fn law_usage_total_ignores_order(s1: Seq<Event>, s2: Seq<Event>, m: Seq<char>, k: int)
    requires
        s1.to_multiset() == s2.to_multiset(),
    ensures
        usage_total(s1, m, k) == usage_total(s2, m, k),
    decreases s1.len(),
{
    broadcast use vstd::seq_lib::group_to_multiset_ensures;

    if s1.len() == 0 {
        s1.to_multiset_ensures();
        s2.to_multiset_ensures();
        assert(s2.len() == 0);
    } else {
        let x = s1.last();
        assert(s1.contains(x)) by {
            assert(s1[s1.len() - 1] == x);
        }
        assert(s1.to_multiset().count(x) > 0);
        assert(s2.to_multiset().count(x) > 0);
        assert(s2.contains(x));
        let j = choose|j: int| 0 <= j < s2.len() && s2[j] == x;
        assert(s1.remove(s1.len() - 1) =~= s1.drop_last());
        assert(s1.drop_last().to_multiset() == s2.remove(j).to_multiset());
        law_usage_total_ignores_order(s1.drop_last(), s2.remove(j), m, k);
        lemma_usage_total_remove(s2, j, m, k);
    }
}

/// The models named do not depend on the order of the events.
proof fn lemma_mentions_permutation(s1: Seq<Event>, s2: Seq<Event>, m: Seq<char>)
    requires
        s1.to_multiset() == s2.to_multiset(),
    ensures
        mentions_model(s1, m) <==> mentions_model(s2, m),
{
    broadcast use vstd::seq_lib::group_to_multiset_ensures;

    if mentions_model(s1, m) {
        let j = choose|j: int| 0 <= j < s1.len() && #[trigger] named_model(s1[j]) == Some(m);
        assert(s1.contains(s1[j]));
        assert(s1.to_multiset().count(s1[j]) > 0);
        assert(s2.to_multiset().count(s1[j]) > 0);
        assert(s2.contains(s1[j]));
        let i = choose|i: int| 0 <= i < s2.len() && s2[i] == s1[j];
        assert(named_model(s2[i]) == Some(m));
    }
    if mentions_model(s2, m) {
        let j = choose|j: int| 0 <= j < s2.len() && #[trigger] named_model(s2[j]) == Some(m);
        assert(s2.contains(s2[j]));
        assert(s2.to_multiset().count(s2[j]) > 0);
        assert(s1.to_multiset().count(s2[j]) > 0);
        assert(s1.contains(s2[j]));
        let i = choose|i: int| 0 <= i < s1.len() && s1[i] == s2[j];
        assert(named_model(s1[i]) == Some(m));
    }
}

/// Two summaries ordered by model name that hold the same models hold them
/// at the same positions.
proof fn lemma_sorted_same_models(v1: Seq<SessionModelMeta>, v2: Seq<SessionModelMeta>)
    requires
        sorted_models(v1),
        sorted_models(v2),
        forall|m: Seq<char>| #[trigger] has_model(v1, m) <==> has_model(v2, m),
    ensures
        v1.len() == v2.len(),
        forall|a: int| 0 <= a < v1.len() ==> #[trigger] v1[a].model@ == v2[a].model@,
    decreases v1.len(),
{
    if v1.len() == 0 {
        if v2.len() > 0 {
            assert(has_model(v2, v2[0].model@));
            assert(!has_model(v1, v2[0].model@));
        }
    } else if v2.len() == 0 {
        assert(has_model(v1, v1[0].model@));
    } else {
        let x = v1[0].model@;
        let y = v2[0].model@;
        assert(has_model(v1, x));
        assert(has_model(v2, x));
        assert(has_model(v2, y));
        assert(has_model(v1, y));
        let b = choose|b: int| 0 <= b < v2.len() && #[trigger] v2[b].model@ == x;
        let a = choose|a: int| 0 <= a < v1.len() && #[trigger] v1[a].model@ == y;
        lemma_seq_less_total(x, y);
        if b > 0 {
            assert(seq_less(v2[0].model@, v2[b].model@));
        }
        if a > 0 {
            assert(seq_less(v1[0].model@, v1[a].model@));
        }
        assert(x == y);
        let w1 = v1.drop_first();
        let w2 = v2.drop_first();
        assert forall|m: Seq<char>| #[trigger] has_model(w1, m) <==> has_model(w2, m) by {
            if has_model(w1, m) {
                let i = choose|i: int| 0 <= i < w1.len() && #[trigger] w1[i].model@ == m;
                assert(v1[i + 1].model@ == m);
                assert(seq_less(x, m));
                lemma_seq_less_irreflexive(x);
                assert(has_model(v1, m));
                let j = choose|j: int| 0 <= j < v2.len() && #[trigger] v2[j].model@ == m;
                assert(j != 0);
                assert(w2[j - 1].model@ == m);
            }
            if has_model(w2, m) {
                let i = choose|i: int| 0 <= i < w2.len() && #[trigger] w2[i].model@ == m;
                assert(v2[i + 1].model@ == m);
                assert(seq_less(y, m));
                lemma_seq_less_irreflexive(y);
                assert(has_model(v2, m));
                assert(has_model(v1, m));
                let j = choose|j: int| 0 <= j < v1.len() && #[trigger] v1[j].model@ == m;
                assert(j != 0);
                assert(w1[j - 1].model@ == m);
            }
        }
        assert forall|i: int, j: int| 0 <= i < j < w1.len() implies seq_less(
            #[trigger] w1[i].model@,
            #[trigger] w1[j].model@,
        ) by {
            assert(w1[i] == v1[i + 1] && w1[j] == v1[j + 1]);
        }
        assert forall|i: int, j: int| 0 <= i < j < w2.len() implies seq_less(
            #[trigger] w2[i].model@,
            #[trigger] w2[j].model@,
        ) by {
            assert(w2[i] == v2[i + 1] && w2[j] == v2[j + 1]);
        }
        lemma_sorted_same_models(w1, w2);
        assert forall|i: int| 0 <= i < v1.len() implies #[trigger] v1[i].model@ == v2[i].model@ by {
            if i > 0 {
                assert(w1[i - 1] == v1[i] && w2[i - 1] == v2[i]);
            }
        }
    }
}

/// The model summary does not depend on the order of the events: for two
/// orderings of the same events, the summaries name the same models at the
/// same positions with the same counters.
pub proof fn law_summary_ignores_event_order(
    e1: Seq<Event>,
    e2: Seq<Event>,
    v1: Seq<SessionModelMeta>,
    v2: Seq<SessionModelMeta>,
)
    requires
        e1.to_multiset() == e2.to_multiset(),
        summarizes(v1, e1),
        summarizes(v2, e2),
    ensures
        v1.len() == v2.len(),
        forall|a: int| 0 <= a < v1.len() ==> #[trigger] v1[a].model@ == v2[a].model@,
        forall|a: int, k: int|
            0 <= a < v1.len() && 0 <= k < COUNTERS ==> #[trigger] v1[a].counter(k) == v2[a].counter(k),
{
    assert forall|m: Seq<char>| #[trigger] has_model(v1, m) <==> has_model(v2, m) by {
        lemma_mentions_permutation(e1, e2, m);
        assert(has_model(v1, m) <==> mentions_model(e1, m));
        assert(has_model(v2, m) <==> mentions_model(e2, m));
    }
    lemma_sorted_same_models(v1, v2);
    assert forall|a: int, k: int| 0 <= a < v1.len() && 0 <= k < COUNTERS implies #[trigger] v1[a].counter(k)
        == v2[a].counter(k) by {
        assert(v1[a].model@ == v2[a].model@);
        law_usage_total_ignores_order(e1, e2, v1[a].model@, k);
        assert(v2[a].counter(k) == usage_total(e2, v2[a].model@, k));
    }
}

/// The field that `field` reads, summed over the usage records of `events`
/// whose model is `m`.
pub open spec fn usage_field_sum(events: Seq<Event>, m: Seq<char>, field: spec_fn(Usage) -> u64) -> int
    decreases events.len(),
{
    if events.len() == 0 {
        0
    } else {
        usage_field_sum(events.drop_last(), m, field) + match events.last().body {
            Body::Usage(u) => if u.model is Some && u.model->0@ == m {
                field(u) as int
            } else {
                0int
            },
            _ => 0int,
        }
    }
}

proof fn lemma_field_sum_is_total(events: Seq<Event>, m: Seq<char>, field: spec_fn(Usage) -> u64, k: int)
    requires
        forall|u: Usage| #[trigger] field(u) == u.counter(k),
    ensures
        usage_field_sum(events, m, field) == usage_total(events, m, k),
    decreases events.len(),
{
    if events.len() > 0 {
        lemma_field_sum_is_total(events.drop_last(), m, field, k);
    }
}

/// Each field of a model's summary is that field summed over the usage
/// records of the model, as the records report it: the total is the sum of
/// the reported totals, not a sum recomputed from other fields.
pub proof fn law_summary_sums_each_field(events: Seq<Event>, v: Seq<SessionModelMeta>)
    requires
        summarizes(v, events),
    ensures
        forall|a: int| 0 <= a < v.len() ==> {
            let m = #[trigger] v[a].model@;
            &&& v[a].input_tokens == usage_field_sum(events, m, |u: Usage| u.input_tokens)
            &&& v[a].output_tokens == usage_field_sum(events, m, |u: Usage| u.output_tokens)
            &&& v[a].cache_creation_tokens == usage_field_sum(
                events,
                m,
                |u: Usage| u.cache_creation_tokens,
            )
            &&& v[a].cache_read_tokens == usage_field_sum(events, m, |u: Usage| u.cache_read_tokens)
            &&& v[a].cached_tokens == usage_field_sum(events, m, |u: Usage| u.cached_tokens)
            &&& v[a].reasoning_tokens == usage_field_sum(events, m, |u: Usage| u.reasoning_tokens)
            &&& v[a].tool_tokens == usage_field_sum(events, m, |u: Usage| u.tool_tokens)
            &&& v[a].total_tokens == usage_field_sum(events, m, |u: Usage| u.total_tokens)
            &&& v[a].web_search_requests == usage_field_sum(
                events,
                m,
                |u: Usage| u.web_search_requests,
            )
        },
{
    assert forall|a: int| 0 <= a < v.len() implies {
        let m = #[trigger] v[a].model@;
        &&& v[a].input_tokens == usage_field_sum(events, m, |u: Usage| u.input_tokens)
        &&& v[a].output_tokens == usage_field_sum(events, m, |u: Usage| u.output_tokens)
        &&& v[a].cache_creation_tokens == usage_field_sum(
            events,
            m,
            |u: Usage| u.cache_creation_tokens,
        )
        &&& v[a].cache_read_tokens == usage_field_sum(events, m, |u: Usage| u.cache_read_tokens)
        &&& v[a].cached_tokens == usage_field_sum(events, m, |u: Usage| u.cached_tokens)
        &&& v[a].reasoning_tokens == usage_field_sum(events, m, |u: Usage| u.reasoning_tokens)
        &&& v[a].tool_tokens == usage_field_sum(events, m, |u: Usage| u.tool_tokens)
        &&& v[a].total_tokens == usage_field_sum(events, m, |u: Usage| u.total_tokens)
        &&& v[a].web_search_requests == usage_field_sum(events, m, |u: Usage| u.web_search_requests)
    } by {
        let m = v[a].model@;
        assert(v[a].counter(0) == usage_total(events, m, 0));
        assert(v[a].counter(1) == usage_total(events, m, 1));
        assert(v[a].counter(2) == usage_total(events, m, 2));
        assert(v[a].counter(3) == usage_total(events, m, 3));
        assert(v[a].counter(4) == usage_total(events, m, 4));
        assert(v[a].counter(5) == usage_total(events, m, 5));
        assert(v[a].counter(6) == usage_total(events, m, 6));
        assert(v[a].counter(7) == usage_total(events, m, 7));
        assert(v[a].counter(8) == usage_total(events, m, 8));
        lemma_field_sum_is_total(events, m, |u: Usage| u.input_tokens, 0);
        lemma_field_sum_is_total(events, m, |u: Usage| u.output_tokens, 1);
        lemma_field_sum_is_total(events, m, |u: Usage| u.cache_creation_tokens, 2);
        lemma_field_sum_is_total(events, m, |u: Usage| u.cache_read_tokens, 3);
        lemma_field_sum_is_total(events, m, |u: Usage| u.cached_tokens, 4);
        lemma_field_sum_is_total(events, m, |u: Usage| u.reasoning_tokens, 5);
        lemma_field_sum_is_total(events, m, |u: Usage| u.tool_tokens, 6);
        lemma_field_sum_is_total(events, m, |u: Usage| u.total_tokens, 7);
        lemma_field_sum_is_total(events, m, |u: Usage| u.web_search_requests, 8);
    }
}

/// The summary holds a model exactly when some usage record names it, or
/// some response from the assistant does.
pub proof fn law_summary_models_are_named_ones(events: Seq<Event>, v: Seq<SessionModelMeta>, m: Seq<char>)
    requires
        summarizes(v, events),
    ensures
        (exists|a: int| 0 <= a < v.len() && #[trigger] v[a].model@ == m) <==> exists|j: int|
            0 <= j < events.len() && match #[trigger] events[j].body {
                Body::Usage(u) => u.model is Some && u.model->0@ == m,
                Body::Response(r) => events[j].actor is Assistant && r.model is Some && r.model->0@
                    == m,
                _ => false,
            },
{
    assert(has_model(v, m) <==> mentions_model(events, m));
    if mentions_model(events, m) {
        let j = choose|j: int| 0 <= j < events.len() && #[trigger] named_model(events[j]) == Some(m);
        assert(match events[j].body {
            Body::Usage(u) => u.model is Some && u.model->0@ == m,
            Body::Response(r) => events[j].actor is Assistant && r.model is Some && r.model->0@ == m,
            _ => false,
        });
    }
    if exists|j: int|
        0 <= j < events.len() && match #[trigger] events[j].body {
            Body::Usage(u) => u.model is Some && u.model->0@ == m,
            Body::Response(r) => events[j].actor is Assistant && r.model is Some && r.model->0@ == m,
            _ => false,
        } {
        let j = choose|j: int|
            0 <= j < events.len() && match #[trigger] events[j].body {
                Body::Usage(u) => u.model is Some && u.model->0@ == m,
                Body::Response(r) => events[j].actor is Assistant && r.model is Some && r.model->0@
                    == m,
                _ => false,
            };
        assert(named_model(events[j]) == Some(m));
    }
}
} // verus!
