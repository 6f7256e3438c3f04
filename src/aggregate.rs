use vstd::prelude::*;
use vstd::string::*;

use crate::engine::Engine;
use crate::response::{EngineResponse, SearchResult};
use crate::url::{is_url_blocked, normalize, normalize_chars, seq_eq, url_blocked};
use crate::text::chars_of;

verus! {

/// Scores are fixed point: a weight of `WEIGHT_ONE` at the top of a list
/// scores `WEIGHT_ONE * SCORE_SCALE`. The scale is the least common multiple
/// of 1 to 40, so the term of each of the first 40 positions of a list is
/// exact, and so are sums and ties among them.
pub const SCORE_SCALE: u64 = 5342931457063200;

/// Largest score that one result of one backend adds.
pub const MAX_TERM: u64 = 6678664321329000000;

/// One result of one backend, at its position in that backend's list.
pub struct Occurrence {
    pub engine: Engine,
    pub pos: nat,
    pub url: Seq<char>,
    pub title: Seq<char>,
    pub description: Seq<char>,
}

/// One entry of the dedup index.
pub struct Entry {
    pub key: Seq<char>,
    pub url: Seq<char>,
    pub title: Seq<char>,
    pub description: Seq<char>,
    pub engines: Seq<Engine>,
    pub score: int,
}

/// What a merged response holds.
pub struct Merged {
    pub results: Seq<Entry>,
    pub featured_snippet: Option<(Seq<char>, Seq<char>, Seq<char>)>,
    pub answer_html: Option<Seq<char>>,
    pub infobox_html: Option<Seq<char>>,
    pub contributors: Seq<Engine>,
}

pub open spec fn occurrences_of(e: Engine, r: EngineResponse) -> Seq<Occurrence> {
    Seq::new(
        r.search_results@.len(),
        |j: int|
            Occurrence {
                engine: e,
                pos: j as nat,
                url: r.search_results@[j].url@,
                title: r.search_results@[j].title@,
                description: r.search_results@[j].description@,
            },
    )
}

/// All results of all outcomes, in order.
pub open spec fn occurrences(o: Seq<(Engine, EngineResponse)>) -> Seq<Occurrence>
    decreases o.len(),
{
    if o.len() == 0 {
        Seq::empty()
    } else {
        occurrences(o.drop_last()) + occurrences_of(o.last().0, o.last().1)
    }
}

/// `weight × 1 / (1 + position)`, in fixed point.
pub open spec fn term(o: Occurrence) -> int {
    (o.engine.spec_weight() * SCORE_SCALE) as int / (o.pos + 1) as int
}

/// Index of the first entry with the key, or -1.
pub open spec fn find_key(es: Seq<Entry>, key: Seq<char>) -> int
    decreases es.len(),
{
    if es.len() == 0 {
        -1
    } else if find_key(es.drop_last(), key) >= 0 {
        find_key(es.drop_last(), key)
    } else if es.last().key == key {
        es.len() - 1
    } else {
        -1
    }
}

pub open spec fn add_engine(engines: Seq<Engine>, e: Engine) -> Seq<Engine> {
    if engines.contains(e) {
        engines
    } else {
        engines.push(e)
    }
}

/// Adds one occurrence to the index: a blocked one is dropped; a new key
/// makes a new entry; a known key adds its term to the entry's score.
pub open spec fn add_occurrence(es: Seq<Entry>, o: Occurrence, blocked: Seq<String>) -> Seq<Entry> {
    if url_blocked(o.url, blocked) {
        es
    } else {
        let key = normalize(o.url);
        let i = find_key(es, key);
        if i < 0 {
            es.push(
                Entry {
                    key,
                    url: o.url,
                    title: o.title,
                    description: o.description,
                    engines: seq![o.engine],
                    score: term(o),
                },
            )
        } else {
            es.update(
                i,
                Entry {
                    engines: add_engine(es[i].engines, o.engine),
                    score: es[i].score + term(o),
                    ..es[i]
                },
            )
        }
    }
}

/// The dedup index built from the occurrences in order.
pub open spec fn dedup(occs: Seq<Occurrence>, blocked: Seq<String>) -> Seq<Entry>
    decreases occs.len(),
{
    if occs.len() == 0 {
        Seq::empty()
    } else {
        add_occurrence(dedup(occs.drop_last(), blocked), occs.last(), blocked)
    }
}

/// Inserts an entry after every entry that scores at least as much.
pub open spec fn insert_ranked(s: Seq<Entry>, e: Entry) -> Seq<Entry>
    decreases s.len(),
{
    if s.len() == 0 {
        seq![e]
    } else if s[0].score < e.score {
        seq![e] + s
    } else {
        seq![s[0]] + insert_ranked(s.drop_first(), e)
    }
}

/// The entries by score, descending; equal scores keep first-seen order.
pub open spec fn rank(es: Seq<Entry>) -> Seq<Entry>
    decreases es.len(),
{
    if es.len() == 0 {
        Seq::empty()
    } else {
        insert_ranked(rank(es.drop_last()), es.last())
    }
}

pub open spec fn opt_view(o: Option<String>) -> Option<Seq<char>> {
    match o {
        Some(s) => Some(s@),
        None => None,
    }
}

pub open spec fn snippet_view(o: Option<SearchResult>) -> Option<(Seq<char>, Seq<char>, Seq<char>)> {
    match o {
        Some(s) => Some((s.url@, s.title@, s.description@)),
        None => None,
    }
}

/// Markup that is there and not empty.
pub open spec fn markup_view(o: Option<String>) -> Option<Seq<char>> {
    match o {
        Some(s) => if s@.len() > 0 {
            Some(s@)
        } else {
            None
        },
        None => None,
    }
}

/// The first non-empty answer in outcome order.
pub open spec fn first_answer(o: Seq<(Engine, EngineResponse)>) -> Option<Seq<char>>
    decreases o.len(),
{
    if o.len() == 0 {
        None
    } else if first_answer(o.drop_last()) is Some {
        first_answer(o.drop_last())
    } else {
        markup_view(o.last().1.answer_html)
    }
}

/// The first non-empty infobox in outcome order.
pub open spec fn first_infobox(o: Seq<(Engine, EngineResponse)>) -> Option<Seq<char>>
    decreases o.len(),
{
    if o.len() == 0 {
        None
    } else if first_infobox(o.drop_last()) is Some {
        first_infobox(o.drop_last())
    } else {
        markup_view(o.last().1.infobox_html)
    }
}

/// A featured snippet whose URL is not blocked.
pub open spec fn unblocked_snippet(o: Option<SearchResult>, blocked: Seq<String>) -> Option<
    (Seq<char>, Seq<char>, Seq<char>),
> {
    match o {
        Some(s) => if url_blocked(s.url@, blocked) {
            None
        } else {
            Some((s.url@, s.title@, s.description@))
        },
        None => None,
    }
}

/// The first featured snippet not blocked, in outcome order.
pub open spec fn first_snippet(o: Seq<(Engine, EngineResponse)>, blocked: Seq<String>) -> Option<
    (Seq<char>, Seq<char>, Seq<char>),
>
    decreases o.len(),
{
    if o.len() == 0 {
        None
    } else if first_snippet(o.drop_last(), blocked) is Some {
        first_snippet(o.drop_last(), blocked)
    } else {
        unblocked_snippet(o.last().1.featured_snippet, blocked)
    }
}

/// A response contributes when a field is left after blocking.
pub open spec fn contributes(r: EngineResponse, blocked: Seq<String>) -> bool {
    ||| unblocked_snippet(r.featured_snippet, blocked) is Some
    ||| markup_view(r.answer_html) is Some
    ||| markup_view(r.infobox_html) is Some
    ||| exists|j: int|
        0 <= j < r.search_results@.len() && !url_blocked(
            #[trigger] r.search_results@[j].url@,
            blocked,
        )
}

/// The backends that contributed, each once, in outcome order.
pub open spec fn contributors(o: Seq<(Engine, EngineResponse)>, blocked: Seq<String>) -> Seq<Engine>
    decreases o.len(),
{
    if o.len() == 0 {
        Seq::empty()
    } else if contributes(o.last().1, blocked) {
        add_engine(contributors(o.drop_last(), blocked), o.last().0)
    } else {
        contributors(o.drop_last(), blocked)
    }
}

/// The merged response of the outcomes, walked in the order given.
pub open spec fn spec_merge(o: Seq<(Engine, EngineResponse)>, blocked: Seq<String>) -> Merged {
    Merged {
        results: rank(dedup(occurrences(o), blocked)),
        featured_snippet: first_snippet(o, blocked),
        answer_html: first_answer(o),
        infobox_html: first_infobox(o),
        contributors: contributors(o, blocked),
    }
}


/// A merged, ranked result.
pub struct RankedResult {
    pub url: String,
    pub title: String,
    pub description: String,
    /// The backends that returned it, in the order they were walked.
    pub engines: Vec<Engine>,
    pub score: u128,
}

impl RankedResult {
    pub open spec fn entry(&self) -> Entry {
        Entry {
            key: normalize(self.url@),
            url: self.url@,
            title: self.title@,
            description: self.description@,
            engines: self.engines@,
            score: self.score as int,
        }
    }
}

pub open spec fn entries(s: Seq<RankedResult>) -> Seq<Entry> {
    s.map_values(|r: RankedResult| r.entry())
}

/// The aggregated response handed to the presentation layer.
pub struct Response {
    pub search_results: Vec<RankedResult>,
    pub featured_snippet: Option<SearchResult>,
    pub answer_html: Option<String>,
    pub infobox_html: Option<String>,
    pub contributors: Vec<Engine>,
}

impl View for Response {
    type V = Merged;

    open spec fn view(&self) -> Merged {
        Merged {
            results: entries(self.search_results@),
            featured_snippet: snippet_view(self.featured_snippet),
            answer_html: opt_view(self.answer_html),
            infobox_html: opt_view(self.infobox_html),
            contributors: self.contributors@,
        }
    }
}

pub(crate) proof fn lemma_find_key(es: Seq<Entry>, key: Seq<char>)
    ensures
        -1 <= find_key(es, key) < es.len(),
        find_key(es, key) == -1 ==> forall|k: int| 0 <= k < es.len() ==> es[k].key != key,
        find_key(es, key) >= 0 ==> es[find_key(es, key)].key == key && forall|k: int|
            0 <= k < find_key(es, key) ==> es[k].key != key,
    decreases es.len(),
{
    if es.len() > 0 {
        let d = es.drop_last();
        lemma_find_key(d, key);
        assert forall|k: int| 0 <= k < d.len() implies d[k] == es[k] by {}
    }
}

pub(crate) proof fn lemma_occurrences_concat(a: Seq<(Engine, EngineResponse)>, b: Seq<(Engine, EngineResponse)>)
    ensures
        occurrences(a + b) == occurrences(a) + occurrences(b),
    decreases b.len(),
{
    if b.len() == 0 {
        assert(a + b =~= a);
        assert(occurrences(a) + occurrences(b) =~= occurrences(a));
    } else {
        lemma_occurrences_concat(a, b.drop_last());
        assert((a + b).drop_last() =~= a + b.drop_last());
        assert(occurrences(a) + occurrences(b) =~= occurrences(a) + occurrences(b.drop_last())
            + occurrences_of(b.last().0, b.last().1));
    }
}

proof fn lemma_term_bound(o: Occurrence)
    ensures
        0 <= term(o) <= MAX_TERM,
{
    let w = (o.engine.spec_weight() * SCORE_SCALE) as int;
    let d = (o.pos + 1) as int;
    assert(w <= MAX_TERM);
    assert(w / d <= w) by (nonlinear_arith)
        requires
            w >= 0,
            d >= 1,
    ;
    assert(w / d >= 0) by (nonlinear_arith)
        requires
            w >= 0,
            d >= 1,
    ;
}

proof fn lemma_insert_at(s: Seq<Entry>, e: Entry, p: int)
    requires
        0 <= p <= s.len(),
        forall|k: int| 0 <= k < p ==> s[k].score >= e.score,
        p == s.len() || s[p].score < e.score,
    ensures
        insert_ranked(s, e) == s.insert(p, e),
    decreases s.len(),
{
    if s.len() == 0 {
        assert(s.insert(p, e) =~= seq![e]);
    } else if p == 0 {
        assert(s.insert(p, e) =~= seq![e] + s);
    } else {
        lemma_insert_at(s.drop_first(), e, p - 1);
        assert(s.insert(p, e) =~= seq![s[0]] + s.drop_first().insert(p - 1, e));
    }
}

fn term_exec(e: Engine, pos: usize) -> (r: u128)
    ensures
        r as int == term(Occurrence { engine: e, pos: pos as nat, url: Seq::empty(), title: Seq::empty(), description: Seq::empty() }),
{
    let w = e.weight() as u128 * SCORE_SCALE as u128;
    w / (pos as u128 + 1)
}

fn clone_result(r: &SearchResult) -> (c: SearchResult)
    ensures
        c.url@ == r.url@,
        c.title@ == r.title@,
        c.description@ == r.description@,
{
    SearchResult { url: r.url.clone(), title: r.title.clone(), description: r.description.clone() }
}

fn clone_markup(o: &Option<String>) -> (r: Option<String>)
    ensures
        opt_view(r) == markup_view(*o),
{
    match o {
        Some(s) => if s.as_str().is_empty() {
            None
        } else {
            Some(s.clone())
        },
        None => None,
    }
}

fn clone_unblocked_snippet(o: &Option<SearchResult>, blocked: &Vec<String>) -> (r: Option<SearchResult>)
    ensures
        snippet_view(r) == unblocked_snippet(*o, blocked@),
{
    match o {
        Some(s) => if is_url_blocked(s.url.as_str(), blocked) {
            None
        } else {
            Some(clone_result(s))
        },
        None => None,
    }
}

fn contains_engine(v: &Vec<Engine>, e: Engine) -> (r: bool)
    ensures
        r == v@.contains(e),
{
    let mut k: usize = 0;
    while k < v.len()
        invariant
            k <= v@.len(),
            forall|j: int| 0 <= j < k ==> v@[j] != e,
        decreases v@.len() - k,
    {
        if v[k] == e {
            return true;
        }
        k = k + 1;
    }
    false
}

fn push_engine(v: &mut Vec<Engine>, e: Engine)
    ensures
        final(v)@ == add_engine(old(v)@, e),
{
    if !contains_engine(v, e) {
        v.push(e);
    }
}

/// Index of the first key equal to `key`, if any.
fn find_key_exec(keys: &Vec<Vec<char>>, key: &Vec<char>, es: Ghost<Seq<Entry>>) -> (r: Option<usize>)
    requires
        keys@.len() == es@.len(),
        forall|k: int| 0 <= k < es@.len() ==> (#[trigger] keys@[k])@ == es@[k].key,
    ensures
        match r {
            Some(i) => i as int == find_key(es@, key@) && i < keys@.len(),
            None => find_key(es@, key@) == -1,
        },
{
    proof {
        lemma_find_key(es@, key@);
    }
    let mut k: usize = 0;
    while k < keys.len()
        invariant
            keys@.len() == es@.len(),
            forall|j: int| 0 <= j < es@.len() ==> (#[trigger] keys@[j])@ == es@[j].key,
            k <= keys@.len(),
            forall|j: int| 0 <= j < k ==> es@[j].key != key@,
            -1 <= find_key(es@, key@) < es@.len(),
            find_key(es@, key@) == -1 ==> forall|j: int| 0 <= j < es@.len() ==> es@[j].key != key@,
            find_key(es@, key@) >= 0 ==> es@[find_key(es@, key@)].key == key@ && forall|j: int|
                0 <= j < find_key(es@, key@) ==> es@[j].key != key@,
        decreases keys@.len() - k,
    {
        if seq_eq(&keys[k], key) {
            assert(es@[k as int].key == key@);
            return Some(k);
        }
        k = k + 1;
    }
    None
}

/// The dedup index of all results, walked in outcome order.
fn build_index(outcomes: &Vec<(Engine, EngineResponse)>, blocked: &Vec<String>) -> (r: Vec<RankedResult>)
    requires
        occurrences(outcomes@).len() <= usize::MAX,
    ensures
        entries(r@) == dedup(occurrences(outcomes@), blocked@),
{
    let ghost o = outcomes@;
    let mut es: Vec<RankedResult> = Vec::new();
    let mut keys: Vec<Vec<char>> = Vec::new();
    let ghost mut count: int = 0;
    let mut i: usize = 0;
    assert(entries(es@) =~= dedup(occurrences(o.take(0)), blocked@));
    while i < outcomes.len()
        invariant
            o == outcomes@,
            occurrences(o).len() <= usize::MAX,
            i <= o.len(),
            entries(es@) == dedup(occurrences(o.take(i as int)), blocked@),
            keys@.len() == es@.len(),
            forall|k: int| 0 <= k < es@.len() ==> (#[trigger] keys@[k])@ == entries(es@)[k].key,
            count == occurrences(o.take(i as int)).len(),
            forall|k: int| 0 <= k < es@.len() ==> (#[trigger] es@[k]).score <= count * MAX_TERM,
        decreases o.len() - i,
    {
        let e = outcomes[i].0;
        let resp = &outcomes[i].1;
        let ghost before = occurrences(o.take(i as int));
        let ghost mine = occurrences_of(e, *resp);
        proof {
            lemma_occurrences_concat(o.take(i as int), o.skip(i as int));
            lemma_occurrences_concat(seq![o[i as int]], o.skip(i + 1));
            assert(o =~= o.take(i as int) + o.skip(i as int));
            assert(o.skip(i as int) =~= seq![o[i as int]] + o.skip(i + 1));
            assert(seq![o[i as int]].drop_last() =~= Seq::<(Engine, EngineResponse)>::empty());
            assert(occurrences(seq![o[i as int]].drop_last()) =~= Seq::<Occurrence>::empty());
            assert(occurrences(seq![o[i as int]]) =~= mine);
            assert(before.len() + mine.len() <= usize::MAX);
            assert(before + mine.take(0) =~= before);
        }
        let mut j: usize = 0;
        while j < resp.search_results.len()
            invariant
                o == outcomes@,
                i < o.len(),
                e == o[i as int].0,
                *resp == o[i as int].1,
                before == occurrences(o.take(i as int)),
                mine == occurrences_of(e, *resp),
                before.len() + mine.len() <= usize::MAX,
                j <= mine.len(),
                entries(es@) == dedup(before + mine.take(j as int), blocked@),
                keys@.len() == es@.len(),
                forall|k: int| 0 <= k < es@.len() ==> (#[trigger] keys@[k])@ == entries(es@)[k].key,
                count == before.len() + j,
                forall|k: int| 0 <= k < es@.len() ==> (#[trigger] es@[k]).score <= count * MAX_TERM,
            decreases mine.len() - j,
        {
            let res = &resp.search_results[j];
            let ghost occ = mine[j as int];
            let ghost prev = before + mine.take(j as int);
            proof {
                assert((before + mine.take(j + 1)).drop_last() =~= prev);
                assert((before + mine.take(j + 1)).last() == occ);
                lemma_term_bound(occ);
            }
            proof {
                assert(count * MAX_TERM >= 0) by (nonlinear_arith)
                    requires
                        count >= 0,
                ;
                assert((count + 1) * MAX_TERM == count * MAX_TERM + MAX_TERM) by (nonlinear_arith);
                assert((count + 1) * MAX_TERM <= 0x1_0000_0000_0000_0000 * 6678664321329000000int)
                    by (nonlinear_arith)
                    requires
                        0 <= count + 1 <= 0x1_0000_0000_0000_0000int,
                ;
            }
            if !is_url_blocked(res.url.as_str(), blocked) {
                let key = normalize_chars(&chars_of(res.url.as_str()));
                let t = term_exec(e, j);
                assert(t as int == term(occ));
                let ghost cur = entries(es@);
                match find_key_exec(&keys, &key, Ghost(cur)) {
                    None => {
                        let engines = vec![e];
                        assert(engines@ =~= seq![e]);
                        let entry = RankedResult {
                            url: res.url.clone(),
                            title: res.title.clone(),
                            description: res.description.clone(),
                            engines,
                            score: t,
                        };
                        es.push(entry);
                        keys.push(key);
                        assert(entries(es@) =~= add_occurrence(cur, occ, blocked@));
                    },
                    Some(idx) => {
                        let mut ent = es.remove(idx);
                        push_engine(&mut ent.engines, e);
                        ent.score = ent.score + t;
                        es.insert(idx, ent);
                        assert(entries(es@) =~= add_occurrence(cur, occ, blocked@));
                    },
                }
            }
            proof {
                count = count + 1;
            }
            j = j + 1;
        }
        proof {
            assert(o.take(i + 1).drop_last() =~= o.take(i as int));
            assert(mine.take(mine.len() as int) =~= mine);
        }
        i = i + 1;
    }
    assert(o.take(o.len() as int) =~= o);
    es
}

/// Sorts the index by score, descending; equal scores keep their order.
fn rank_exec(es: Vec<RankedResult>) -> (r: Vec<RankedResult>)
    ensures
        entries(r@) == rank(entries(es@)),
{
    let ghost orig = es@;
    let mut rest = es;
    let mut sorted: Vec<RankedResult> = Vec::new();
    let ghost mut i: int = 0;
    assert(entries(orig.take(0)) =~= Seq::<Entry>::empty());
    while rest.len() > 0
        invariant
            0 <= i <= orig.len(),
            rest@ == orig.skip(i),
            entries(sorted@) == rank(entries(orig.take(i))),
        decreases rest@.len(),
    {
        let e = rest.remove(0);
        let ghost sv = entries(sorted@);
        let mut p: usize = 0;
        while p < sorted.len() && sorted[p].score >= e.score
            invariant
                p <= sorted@.len(),
                sv == entries(sorted@),
                forall|k: int| 0 <= k < p ==> sv[k].score >= e.entry().score,
            decreases sorted@.len() - p,
        {
            p = p + 1;
        }
        proof {
            lemma_insert_at(sv, e.entry(), p as int);
            assert(entries(orig.take(i + 1)).drop_last() =~= entries(orig.take(i)));
            assert(entries(orig.take(i + 1)).last() == e.entry());
            i = i + 1;
        }
        sorted.insert(p, e);
        assert(entries(sorted@) =~= sv.insert(p as int, e.entry()));
        assert(rest@ =~= orig.skip(i));
    }
    assert(orig.take(i) =~= orig);
    sorted
}

/// Whether a backend's response holds a field after blocking.
fn contributes_exec(r: &EngineResponse, blocked: &Vec<String>) -> (b: bool)
    ensures
        b == contributes(*r, blocked@),
{
    match &r.featured_snippet {
        Some(s) => if !is_url_blocked(s.url.as_str(), blocked) {
            return true;
        },
        None => {},
    }
    match &r.answer_html {
        Some(a) => if !a.as_str().is_empty() {
            return true;
        },
        None => {},
    }
    match &r.infobox_html {
        Some(b) => if !b.as_str().is_empty() {
            return true;
        },
        None => {},
    }
    let mut j: usize = 0;
    while j < r.search_results.len()
        invariant
            j <= r.search_results@.len(),
            forall|k: int| 0 <= k < j ==> url_blocked(#[trigger] r.search_results@[k].url@, blocked@),
        decreases r.search_results@.len() - j,
    {
        if !is_url_blocked(r.search_results[j].url.as_str(), blocked) {
            return true;
        }
        j = j + 1;
    }
    false
}

/// Total number of results over all outcomes.
pub fn result_count(outcomes: &Vec<(Engine, EngineResponse)>) -> (r: Option<usize>)
    ensures
        match r {
            Some(n) => n == occurrences(outcomes@).len(),
            None => occurrences(outcomes@).len() > usize::MAX,
        },
{
    let ghost o = outcomes@;
    let mut n: usize = 0;
    let mut i: usize = 0;
    while i < outcomes.len()
        invariant
            o == outcomes@,
            i <= o.len(),
            n == occurrences(o.take(i as int)).len(),
        decreases o.len() - i,
    {
        proof {
            assert(o.take(i + 1).drop_last() =~= o.take(i as int));
        }
        let len = outcomes[i].1.search_results.len();
        if n > usize::MAX - len {
            proof {
                lemma_occurrences_concat(o.take(i + 1), o.skip(i + 1));
                assert(o =~= o.take(i + 1) + o.skip(i + 1));
            }
            return None;
        }
        n = n + len;
        i = i + 1;
    }
    assert(o.take(o.len() as int) =~= o);
    Some(n)
}

/// Merges per-backend outcomes, walked in the order given (registry order),
/// into one response: results not blocked, deduplicated by normalised URL
/// and ranked by score; the first answer, infobox and featured snippet; the
/// backends that contributed.
pub fn merge(outcomes: &Vec<(Engine, EngineResponse)>, blocked: &Vec<String>) -> (r: Response)
    requires
        occurrences(outcomes@).len() <= usize::MAX,
    ensures
        r@ == spec_merge(outcomes@, blocked@),
{
    let ghost o = outcomes@;
    let index = build_index(outcomes, blocked);
    let search_results = rank_exec(index);
    let mut featured_snippet: Option<SearchResult> = None;
    let mut answer_html: Option<String> = None;
    let mut infobox_html: Option<String> = None;
    let mut contributors_v: Vec<Engine> = Vec::new();
    let mut i: usize = 0;
    while i < outcomes.len()
        invariant
            o == outcomes@,
            i <= o.len(),
            snippet_view(featured_snippet) == first_snippet(o.take(i as int), blocked@),
            opt_view(answer_html) == first_answer(o.take(i as int)),
            opt_view(infobox_html) == first_infobox(o.take(i as int)),
            contributors_v@ == contributors(o.take(i as int), blocked@),
        decreases o.len() - i,
    {
        proof {
            assert(o.take(i + 1).drop_last() =~= o.take(i as int));
        }
        let resp = &outcomes[i].1;
        if featured_snippet.is_none() {
            featured_snippet = clone_unblocked_snippet(&resp.featured_snippet, blocked);
        }
        if answer_html.is_none() {
            answer_html = clone_markup(&resp.answer_html);
        }
        if infobox_html.is_none() {
            infobox_html = clone_markup(&resp.infobox_html);
        }
        if contributes_exec(resp, blocked) {
            push_engine(&mut contributors_v, outcomes[i].0);
        }
        i = i + 1;
    }
    assert(o.take(o.len() as int) =~= o);
    Response {
        search_results,
        featured_snippet,
        answer_html,
        infobox_html,
        contributors: contributors_v,
    }
}

proof fn lemma_dedup_unblocked(occs: Seq<Occurrence>, blocked: Seq<String>)
    ensures
        forall|k: int|
            0 <= k < dedup(occs, blocked).len() ==> !url_blocked(
                #[trigger] dedup(occs, blocked)[k].url,
                blocked,
            ),
    decreases occs.len(),
{
    if occs.len() > 0 {
        let prev = dedup(occs.drop_last(), blocked);
        let o = occs.last();
        lemma_dedup_unblocked(occs.drop_last(), blocked);
        lemma_find_key(prev, normalize(o.url));
        let cur = dedup(occs, blocked);
        assert forall|k: int| 0 <= k < cur.len() implies !url_blocked(#[trigger] cur[k].url, blocked) by {
            if !url_blocked(o.url, blocked) && k < prev.len() {
                assert(cur[k].url == prev[k].url);
            }
        }
    }
}

proof fn lemma_insert_ranked_members(s: Seq<Entry>, e: Entry)
    ensures
        insert_ranked(s, e).len() == s.len() + 1,
        forall|k: int|
            0 <= k < insert_ranked(s, e).len() ==> #[trigger] insert_ranked(s, e)[k] == e || s.contains(
                insert_ranked(s, e)[k],
            ),
    decreases s.len(),
{
    if s.len() > 0 && s[0].score >= e.score {
        let t = s.drop_first();
        lemma_insert_ranked_members(t, e);
        assert forall|k: int| 0 <= k < insert_ranked(s, e).len() implies #[trigger] insert_ranked(
            s,
            e,
        )[k] == e || s.contains(insert_ranked(s, e)[k]) by {
            if k == 0 {
                assert(s[0] == insert_ranked(s, e)[k]);
            } else {
                let x = insert_ranked(t, e)[k - 1];
                assert(insert_ranked(s, e)[k] == x);
                if x != e {
                    let m = choose|m: int| 0 <= m < t.len() && t[m] == x;
                    assert(s[m + 1] == x);
                }
            }
        }
    } else if s.len() > 0 {
        assert forall|k: int| 0 <= k < insert_ranked(s, e).len() implies #[trigger] insert_ranked(
            s,
            e,
        )[k] == e || s.contains(insert_ranked(s, e)[k]) by {
            if k > 0 {
                assert(insert_ranked(s, e)[k] == s[k - 1]);
            }
        }
    }
}

proof fn lemma_rank_members(es: Seq<Entry>)
    ensures
        rank(es).len() == es.len(),
        forall|k: int| 0 <= k < rank(es).len() ==> es.contains(#[trigger] rank(es)[k]),
    decreases es.len(),
{
    if es.len() > 0 {
        let d = es.drop_last();
        lemma_rank_members(d);
        lemma_insert_ranked_members(rank(d), es.last());
        assert forall|k: int| 0 <= k < rank(es).len() implies es.contains(#[trigger] rank(es)[k]) by {
            let x = rank(es)[k];
            if x == es.last() {
                assert(es[es.len() - 1] == x);
            } else {
                let m = choose|m: int| 0 <= m < rank(d).len() && rank(d)[m] == x;
                assert(d.contains(rank(d)[m]));
                let n = choose|n: int| 0 <= n < d.len() && d[n] == x;
                assert(es[n] == x);
            }
        }
    }
}

/// No merged response holds a result whose normalised host equals a blocked
/// domain or is a subdomain of one.
pub proof fn lemma_blocked_results_absent(o: Seq<(Engine, EngineResponse)>, blocked: Seq<String>)
    ensures
        forall|k: int|
            0 <= k < spec_merge(o, blocked).results.len() ==> !url_blocked(
                #[trigger] spec_merge(o, blocked).results[k].url,
                blocked,
            ),
{
    let es = dedup(occurrences(o), blocked);
    lemma_dedup_unblocked(occurrences(o), blocked);
    lemma_rank_members(es);
    assert forall|k: int| 0 <= k < rank(es).len() implies !url_blocked(
        #[trigger] rank(es)[k].url,
        blocked,
    ) by {
        let n = choose|n: int| 0 <= n < es.len() && es[n] == rank(es)[k];
        assert(!url_blocked(es[n].url, blocked));
    }
}

/// The answer slot holds the answer of the first outcome, in the order
/// walked, that has a non-empty one, whatever the later outcomes hold.
pub proof fn lemma_first_answer_wins(o: Seq<(Engine, EngineResponse)>, blocked: Seq<String>, i: int)
    requires
        0 <= i < o.len(),
        markup_view(o[i].1.answer_html) is Some,
        forall|k: int| 0 <= k < i ==> markup_view((#[trigger] o[k]).1.answer_html) is None,
    ensures
        spec_merge(o, blocked).answer_html == markup_view(o[i].1.answer_html),
    decreases o.len(),
{
    if i < o.len() - 1 {
        let d = o.drop_last();
        assert forall|k: int| 0 <= k < i implies markup_view((#[trigger] d[k]).1.answer_html) is None by {
            assert(d[k] == o[k]);
        }
        assert(d[i] == o[i]);
        lemma_first_answer_wins(d, blocked, i);
    } else {
        lemma_no_answer(o.drop_last());
    }
}

proof fn lemma_no_answer(o: Seq<(Engine, EngineResponse)>)
    requires
        forall|k: int| 0 <= k < o.len() ==> markup_view((#[trigger] o[k]).1.answer_html) is None,
    ensures
        first_answer(o) is None,
    decreases o.len(),
{
    if o.len() > 0 {
        let d = o.drop_last();
        assert forall|k: int| 0 <= k < d.len() implies markup_view((#[trigger] d[k]).1.answer_html) is None by {
            assert(d[k] == o[k]);
        }
        lemma_no_answer(d);
        assert(markup_view(o[o.len() - 1].1.answer_html) is None);
    }
}

proof fn lemma_skip_empty(
    a: Seq<(Engine, EngineResponse)>,
    p: (Engine, EngineResponse),
    b: Seq<(Engine, EngineResponse)>,
    blocked: Seq<String>,
)
    requires
        p.1.spec_is_empty(),
    ensures
        occurrences(a + seq![p] + b) == occurrences(a + b),
        first_answer(a + seq![p] + b) == first_answer(a + b),
        first_infobox(a + seq![p] + b) == first_infobox(a + b),
        first_snippet(a + seq![p] + b, blocked) == first_snippet(a + b, blocked),
        contributors(a + seq![p] + b, blocked) == contributors(a + b, blocked),
    decreases b.len(),
{
    if b.len() == 0 {
        let s = a + seq![p] + b;
        assert(s.drop_last() =~= a);
        assert(a + b =~= a);
        assert(occurrences_of(p.0, p.1) =~= Seq::<Occurrence>::empty());
        assert(occurrences(a) + Seq::<Occurrence>::empty() =~= occurrences(a));
        assert(!contributes(p.1, blocked));
    } else {
        lemma_skip_empty(a, p, b.drop_last(), blocked);
        assert((a + seq![p] + b).drop_last() =~= a + seq![p] + b.drop_last());
        assert((a + b).drop_last() =~= a + b.drop_last());
        assert((a + seq![p] + b).last() == (a + b).last());
    }
}

/// A backend that failed contributes the empty response; the merged
/// response is then the one computed with that backend left out.
pub proof fn lemma_failed_backend_isolated(
    o: Seq<(Engine, EngineResponse)>,
    i: int,
    failed: Engine,
    empty: EngineResponse,
    blocked: Seq<String>,
)
    requires
        0 <= i <= o.len(),
        empty.spec_is_empty(),
    ensures
        spec_merge(o.insert(i, (failed, empty)), blocked) == spec_merge(o, blocked),
{
    let a = o.take(i);
    let b = o.skip(i);
    assert(o.insert(i, (failed, empty)) =~= a + seq![(failed, empty)] + b);
    assert(o =~= a + b);
    lemma_skip_empty(a, (failed, empty), b, blocked);
}

} // verus!
