use vstd::prelude::*;

use crate::aggregate::{
    add_engine, add_occurrence, contributes, contributors, dedup, find_key, first_answer,
    first_infobox, first_snippet, insert_ranked, lemma_find_key, lemma_occurrences_concat,
    occurrences, rank, spec_merge, term, Entry, Merged, Occurrence,
};
use crate::engine::Engine;
use crate::response::EngineResponse;
use crate::url::{normalize, url_blocked};

verus! {

/// The sum of the terms of the unblocked occurrences whose normalised URL is `key`.
pub open spec fn key_sum(s: Seq<Occurrence>, key: Seq<char>, blocked: Seq<String>) -> int
    decreases s.len(),
{
    if s.len() == 0 {
        0
    } else {
        key_sum(s.drop_last(), key, blocked) + if !url_blocked(s.last().url, blocked) && normalize(
            s.last().url,
        ) == key {
            term(s.last())
        } else {
            0
        }
    }
}

/// The entry with `extra` added to its score.
pub open spec fn raised(e: Entry, extra: int) -> Entry {
    Entry { score: e.score + extra, ..e }
}

/// The entry with its score doubled.
pub open spec fn doubled(e: Entry) -> Entry {
    Entry { score: 2 * e.score, ..e }
}

pub open spec fn all_doubled(es: Seq<Entry>) -> Seq<Entry> {
    es.map_values(|e: Entry| doubled(e))
}

/// What the dedup index knows of the occurrences it was built from.
pub open spec fn index_facts(s: Seq<Occurrence>, blocked: Seq<String>) -> bool {
    let d = dedup(s, blocked);
    &&& forall|i: int| 0 <= i < d.len() ==> (#[trigger] d[i]).score == key_sum(s, d[i].key, blocked)
    &&& forall|i: int, j: int| 0 <= i < j < d.len() ==> (#[trigger] d[i]).key != (#[trigger] d[j]).key
    &&& forall|k: Seq<char>| find_key(d, k) == -1 ==> #[trigger] key_sum(s, k, blocked) == 0
    &&& forall|m: int|
        0 <= m < s.len() && !url_blocked(#[trigger] s[m].url, blocked) ==> find_key(d, normalize(s[m].url)) >= 0
            && d[find_key(d, normalize(s[m].url))].engines.contains(s[m].engine)
}

proof fn lemma_add_engine_keeps(engines: Seq<Engine>, e: Engine, x: Engine)
    ensures
        engines.contains(x) ==> add_engine(engines, e).contains(x),
        add_engine(engines, e).contains(e),
{
    if !engines.contains(e) {
        let p = engines.push(e);
        assert(p[engines.len() as int] == e);
        if engines.contains(x) {
            let i = choose|i: int| 0 <= i < engines.len() && engines[i] == x;
            assert(p[i] == x);
        }
    }
}

proof fn lemma_index_facts(s: Seq<Occurrence>, blocked: Seq<String>)
    ensures
        index_facts(s, blocked),
    decreases s.len(),
{
    if s.len() > 0 {
        let p = s.drop_last();
        let o = s.last();
        lemma_index_facts(p, blocked);
        let dp = dedup(p, blocked);
        let d = dedup(s, blocked);
        let key = normalize(o.url);
        lemma_find_key(dp, key);
        assert(d == add_occurrence(dp, o, blocked));
        assert forall|k: Seq<char>| #[trigger] key_sum(s, k, blocked) == key_sum(p, k, blocked) + if !url_blocked(o.url, blocked) && key == k {
            term(o)
        } else {
            0
        } by {}
        assert forall|m: int| 0 <= m < p.len() implies #[trigger] s[m] == p[m] by {}
        if url_blocked(o.url, blocked) {
            assert(d == dp);
        } else if find_key(dp, key) < 0 {
            assert forall|k: Seq<char>| find_key(d, k) == -1 implies #[trigger] key_sum(s, k, blocked) == 0 by {
                lemma_find_key(d, k);
                lemma_find_key(dp, k);
                assert(d[dp.len() as int].key == key);
                if find_key(dp, k) >= 0 {
                    assert(d[find_key(dp, k)] == dp[find_key(dp, k)]);
                }
            }
            assert forall|m: int| 0 <= m < s.len() && !url_blocked(#[trigger] s[m].url, blocked) implies find_key(d, normalize(s[m].url)) >= 0
                && d[find_key(d, normalize(s[m].url))].engines.contains(s[m].engine) by {
                let km = normalize(s[m].url);
                lemma_find_key(d, km);
                lemma_find_key(dp, km);
                if m < p.len() {
                    let f = find_key(dp, km);
                    assert(d[f] == dp[f]);
                    assert(find_key(d, km) == f);
                } else {
                    assert(find_key(d, km) == dp.len());
                    assert(d[dp.len() as int].engines[0] == o.engine);
                }
            }
        } else {
            let i = find_key(dp, key);
            assert forall|k: Seq<char>| find_key(d, k) == -1 implies #[trigger] key_sum(s, k, blocked) == 0 by {
                lemma_find_key(d, k);
                lemma_find_key(dp, k);
                assert(d[i].key == key);
                if find_key(dp, k) >= 0 {
                    assert(d[find_key(dp, k)].key == dp[find_key(dp, k)].key);
                }
            }
            assert forall|m: int| 0 <= m < s.len() && !url_blocked(#[trigger] s[m].url, blocked) implies find_key(d, normalize(s[m].url)) >= 0
                && d[find_key(d, normalize(s[m].url))].engines.contains(s[m].engine) by {
                let km = normalize(s[m].url);
                lemma_find_key(d, km);
                lemma_find_key(dp, km);
                let f = find_key(dp, km);
                assert forall|n: int| 0 <= n < d.len() implies #[trigger] d[n].key == dp[n].key by {}
                lemma_find_key_same_keys(d, dp, km);
                if m < p.len() {
                    assert(find_key(d, km) == f);
                    lemma_add_engine_keeps(dp[i].engines, o.engine, s[m].engine);
                } else {
                    assert(f == i);
                    assert(find_key(d, km) == i);
                    lemma_add_engine_keeps(dp[i].engines, o.engine, o.engine);
                }
            }
        }
    }
}

/// The index after the occurrences and a prefix of them again: the same
/// entries, each score raised by the prefix's sum for its key.
proof fn lemma_second_pass(s: Seq<Occurrence>, j: int, blocked: Seq<String>)
    requires
        0 <= j <= s.len(),
    ensures
        dedup(s + s.take(j), blocked).len() == dedup(s, blocked).len(),
        forall|i: int|
            0 <= i < dedup(s, blocked).len() ==> #[trigger] dedup(s + s.take(j), blocked)[i] == raised(
                dedup(s, blocked)[i],
                key_sum(s.take(j), dedup(s, blocked)[i].key, blocked),
            ),
    decreases j,
{
    let d = dedup(s, blocked);
    if j == 0 {
        assert(s + s.take(0) =~= s);
        assert forall|i: int| 0 <= i < d.len() implies #[trigger] dedup(s + s.take(j), blocked)[i] == raised(
            d[i],
            key_sum(s.take(j), d[i].key, blocked),
        ) by {}
    } else {
        lemma_second_pass(s, j - 1, blocked);
        lemma_index_facts(s, blocked);
        let prev = dedup(s + s.take(j - 1), blocked);
        let o = s[j - 1];
        assert((s + s.take(j)).drop_last() =~= s + s.take(j - 1));
        assert((s + s.take(j)).last() == o);
        assert(s.take(j).drop_last() =~= s.take(j - 1));
        let cur = dedup(s + s.take(j), blocked);
        assert(cur == add_occurrence(prev, o, blocked));
        let key = normalize(o.url);
        if !url_blocked(o.url, blocked) {
            lemma_find_key(d, key);
            lemma_find_key(prev, key);
            assert forall|m: int| 0 <= m < d.len() implies #[trigger] prev[m].key == d[m].key by {}
            lemma_find_key_same_keys(prev, d, key);
            assert(!url_blocked(s[j - 1].url, blocked));
            assert(find_key(d, key) >= 0);
        }
        assert forall|i: int| 0 <= i < d.len() implies #[trigger] cur[i] == raised(
            d[i],
            key_sum(s.take(j), d[i].key, blocked),
        ) by {
            if !url_blocked(o.url, blocked) {
                let f = find_key(d, key);
                lemma_find_key(d, key);
                lemma_find_key(prev, key);
                assert forall|m: int| 0 <= m < d.len() implies #[trigger] prev[m].key == d[m].key by {}
                assert(find_key(prev, key) == f) by {
                    lemma_find_key_same_keys(prev, d, key);
                }
                assert(f >= 0);
                assert(d[f].engines.contains(o.engine));
                if i != f {
                    assert(d[i].key != d[f].key);
                }
            }
        }
    }
}

proof fn lemma_find_key_same_keys(a: Seq<Entry>, b: Seq<Entry>, key: Seq<char>)
    requires
        a.len() == b.len(),
        forall|m: int| 0 <= m < a.len() ==> #[trigger] a[m].key == b[m].key,
    ensures
        find_key(a, key) == find_key(b, key),
    decreases a.len(),
{
    if a.len() > 0 {
        let da = a.drop_last();
        let db = b.drop_last();
        assert forall|m: int| 0 <= m < da.len() implies #[trigger] da[m].key == db[m].key by {
            assert(a[m].key == b[m].key);
        }
        lemma_find_key_same_keys(da, db, key);
        assert(a[a.len() - 1].key == b[b.len() - 1].key);
    }
}

proof fn lemma_insert_doubled(s: Seq<Entry>, e: Entry)
    ensures
        insert_ranked(all_doubled(s), doubled(e)) == all_doubled(insert_ranked(s, e)),
    decreases s.len(),
{
    if s.len() == 0 {
        assert(all_doubled(seq![e]) =~= seq![doubled(e)]);
    } else if s[0].score < e.score {
        assert(all_doubled(seq![e] + s) =~= seq![doubled(e)] + all_doubled(s));
    } else {
        lemma_insert_doubled(s.drop_first(), e);
        assert(all_doubled(s).drop_first() =~= all_doubled(s.drop_first()));
        assert(all_doubled(seq![s[0]] + insert_ranked(s.drop_first(), e)) =~= seq![doubled(s[0])]
            + all_doubled(insert_ranked(s.drop_first(), e)));
    }
}

proof fn lemma_rank_doubled(es: Seq<Entry>)
    ensures
        rank(all_doubled(es)) == all_doubled(rank(es)),
    decreases es.len(),
{
    if es.len() == 0 {
        assert(all_doubled(es) =~= Seq::<Entry>::empty());
        assert(all_doubled(Seq::<Entry>::empty()) =~= Seq::<Entry>::empty());
    } else {
        lemma_rank_doubled(es.drop_last());
        assert(all_doubled(es).drop_last() =~= all_doubled(es.drop_last()));
        lemma_insert_doubled(rank(es.drop_last()), es.last());
    }
}

proof fn lemma_slots_concat(a: Seq<(Engine, EngineResponse)>, b: Seq<(Engine, EngineResponse)>, blocked: Seq<String>)
    ensures
        first_answer(a + b) == if first_answer(a) is Some { first_answer(a) } else { first_answer(b) },
        first_infobox(a + b) == if first_infobox(a) is Some { first_infobox(a) } else { first_infobox(b) },
        first_snippet(a + b, blocked) == if first_snippet(a, blocked) is Some { first_snippet(a, blocked) } else { first_snippet(b, blocked) },
    decreases b.len(),
{
    if b.len() == 0 {
        assert(a + b =~= a);
    } else {
        lemma_slots_concat(a, b.drop_last(), blocked);
        assert((a + b).drop_last() =~= a + b.drop_last());
        assert((a + b).last() == b.last());
    }
}

proof fn lemma_contributor_listed(o: Seq<(Engine, EngineResponse)>, blocked: Seq<String>, k: int)
    requires
        0 <= k < o.len(),
        contributes(o[k].1, blocked),
    ensures
        contributors(o, blocked).contains(o[k].0),
    decreases o.len(),
{
    let d = o.drop_last();
    if k < o.len() - 1 {
        assert(d[k] == o[k]);
        lemma_contributor_listed(d, blocked, k);
        if contributes(o.last().1, blocked) {
            lemma_add_engine_keeps(contributors(d, blocked), o.last().0, o[k].0);
        }
    } else {
        lemma_add_engine_keeps(contributors(d, blocked), o.last().0, o.last().0);
    }
}

proof fn lemma_contributors_repeat(a: Seq<(Engine, EngineResponse)>, b: Seq<(Engine, EngineResponse)>, blocked: Seq<String>)
    requires
        b.len() <= a.len(),
        b == a.take(b.len() as int),
    ensures
        contributors(a + b, blocked) == contributors(a, blocked),
    decreases b.len(),
{
    if b.len() == 0 {
        assert(a + b =~= a);
    } else {
        let bd = b.drop_last();
        assert(bd =~= a.take(bd.len() as int));
        lemma_contributors_repeat(a, bd, blocked);
        assert((a + b).drop_last() =~= a + bd);
        assert((a + b).last() == a[b.len() - 1]);
        if contributes(a[b.len() - 1].1, blocked) {
            lemma_contributor_listed(a, blocked, b.len() - 1);
        }
    }
}

/// Merging the same outcomes twice in a row gives the response of merging
/// them once, but for the scores, which double.
pub proof fn lemma_merge_twice(o: Seq<(Engine, EngineResponse)>, blocked: Seq<String>)
    ensures
        ({
            let once = spec_merge(o, blocked);
            let twice = spec_merge(o + o, blocked);
            &&& twice.results == all_doubled(once.results)
            &&& twice.featured_snippet == once.featured_snippet
            &&& twice.answer_html == once.answer_html
            &&& twice.infobox_html == once.infobox_html
            &&& twice.contributors == once.contributors
        }),
{
    let s = occurrences(o);
    lemma_occurrences_concat(o, o);
    lemma_second_pass(s, s.len() as int, blocked);
    lemma_index_facts(s, blocked);
    assert(s.take(s.len() as int) =~= s);
    let d = dedup(s, blocked);
    assert(dedup(s + s, blocked) =~= all_doubled(d));
    lemma_rank_doubled(d);
    lemma_slots_concat(o, o, blocked);
    assert(o.take(o.len() as int) =~= o);
    lemma_contributors_repeat(o, o, blocked);
}

} // verus!
