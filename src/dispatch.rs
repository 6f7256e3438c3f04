use vstd::prelude::*;

use crate::engine::Engine;
use crate::prefs::spec_is_enabled;
use crate::random;
use crate::response::{EngineResponse, SearchQuery};
use crate::text::lower_of;

verus! {

/// A stage of the pipeline, and the backends that take part in it.
#[derive(Clone, Copy, Debug, PartialEq, Eq)]
pub enum Stage {
    /// The search request: every enabled backend has an outcome; answer
    /// matchers answer, search backends are queried, the others decline.
    Search,
    Autocomplete,
    Postsearch,
}

pub open spec fn takes_part(e: Engine, stage: Stage) -> bool {
    match stage {
        Stage::Search => true,
        Stage::Autocomplete => e.spec_has_autocomplete(),
        Stage::Postsearch => e.spec_has_postsearch(),
    }
}

/// The backends of `engines` that are enabled and take part in the stage,
/// in order.
pub open spec fn plan_of(engines: Seq<Engine>, enabled: Seq<(Engine, bool)>, stage: Stage) -> Seq<Engine>
    decreases engines.len(),
{
    if engines.len() == 0 {
        Seq::empty()
    } else if takes_part(engines.last(), stage) && spec_is_enabled(engines.last(), enabled) {
        plan_of(engines.drop_last(), enabled, stage).push(engines.last())
    } else {
        plan_of(engines.drop_last(), enabled, stage)
    }
}

pub open spec fn spec_plan(enabled: Seq<(Engine, bool)>, stage: Stage) -> Seq<Engine> {
    plan_of(Engine::spec_all(), enabled, stage)
}

fn takes_part_exec(e: Engine, stage: &Stage) -> (r: bool)
    ensures
        r == takes_part(e, *stage),
{
    match stage {
        Stage::Search => true,
        Stage::Autocomplete => e.has_autocomplete(),
        Stage::Postsearch => e.has_postsearch(),
    }
}

/// The backends to run for a stage: enabled ones that take part in it, in
/// registry order, each once.
pub fn plan(enabled: &Vec<(Engine, bool)>, stage: Stage) -> (r: Vec<Engine>)
    ensures
        r@ == spec_plan(enabled@, stage),
        forall|a: int, b: int| 0 <= a < b < r@.len() ==> r@[a] != r@[b],
{
    let all = Engine::all();
    let mut out: Vec<Engine> = Vec::new();
    let mut k: usize = 0;
    assert(all@.take(0) =~= Seq::<Engine>::empty());
    while k < all.len()
        invariant
            all@ == Engine::spec_all(),
            k <= all@.len(),
            out@ == plan_of(all@.take(k as int), enabled@, stage),
            forall|a: int, b: int| 0 <= a < b < out@.len() ==> (#[trigger] out@[a]).index() < (#[trigger] out@[b]).index(),
            forall|m: int| 0 <= m < out@.len() ==> (#[trigger] out@[m]).index() < k,
        decreases all@.len() - k,
    {
        proof {
            assert(all@.take(k + 1).drop_last() =~= all@.take(k as int));
        }
        let e = all[k];
        assert(e.index() == k);
        if takes_part_exec(e, &stage) && e.is_enabled(enabled) {
            out.push(e);
        }
        k = k + 1;
    }
    assert(all@.take(all@.len() as int) =~= all@);
    out
}

/// What an answer matcher makes of the query; `None` for a backend that is
/// no answer matcher.
pub fn answer(engine: Engine, query: &SearchQuery) -> (r: Option<EngineResponse>)
    ensures
        engine.spec_is_answer() <==> r is Some,
        r matches Some(resp) ==> {
            &&& resp.search_results@.len() == 0
            &&& resp.featured_snippet is None
            &&& resp.infobox_html is None
            &&& random::is_random_query(lower_of(query.query@)) ==> (resp.answer_html matches Some(h)
                && h@ == random::RANDOM_ANSWER_HTML@)
            &&& !random::is_random_query(lower_of(query.query@)) ==> resp.answer_html is None
        },
{
    match engine {
        Engine::Random => Some(random::request(query)),
        _ => None,
    }
}

/// The first response in `finished` that `e` gave.
pub open spec fn first_response(finished: Seq<(Engine, EngineResponse)>, e: Engine) -> Option<EngineResponse>
    decreases finished.len(),
{
    if finished.len() == 0 {
        None
    } else if finished[0].0 == e {
        Some(finished[0].1)
    } else {
        first_response(finished.drop_first(), e)
    }
}

/// The outcome of a planned backend: its response if it finished, else the
/// empty response.
pub open spec fn outcome_of(finished: Seq<(Engine, EngineResponse)>, e: Engine, r: EngineResponse) -> bool {
    match first_response(finished, e) {
        Some(resp) => r == resp,
        None => r.spec_is_empty(),
    }
}

proof fn lemma_first_response_remove(finished: Seq<(Engine, EngineResponse)>, j: int, e: Engine)
    requires
        0 <= j < finished.len(),
        finished[j].0 != e,
    ensures
        first_response(finished.remove(j), e) == first_response(finished, e),
    decreases finished.len(),
{
    if j > 0 {
        lemma_first_response_remove(finished.drop_first(), j - 1, e);
        assert(finished.remove(j).drop_first() =~= finished.drop_first().remove(j - 1));
    } else {
        assert(finished.remove(0) =~= finished.drop_first());
    }
}

proof fn lemma_first_response_at(finished: Seq<(Engine, EngineResponse)>, j: int, e: Engine)
    requires
        0 <= j <= finished.len(),
        forall|k: int| 0 <= k < j ==> (#[trigger] finished[k]).0 != e,
    ensures
        j < finished.len() && finished[j].0 == e ==> first_response(finished, e) == Some(finished[j].1),
        j == finished.len() ==> first_response(finished, e) is None,
    decreases j,
{
    if j > 0 {
        let d = finished.drop_first();
        assert forall|k: int| 0 <= k < j - 1 implies (#[trigger] d[k]).0 != e by {
            assert(d[k] == finished[k + 1]);
        }
        lemma_first_response_at(d, j - 1, e);
    }
}

/// Puts the finished units back in plan order: each planned backend gets
/// the response it gave, whenever it finished, or the empty response where
/// it failed, timed out or was abandoned.
pub fn collect_outcomes(plan: &Vec<Engine>, finished: Vec<(Engine, EngineResponse)>) -> (r: Vec<(Engine, EngineResponse)>)
    requires
        forall|a: int, b: int| 0 <= a < b < plan@.len() ==> plan@[a] != plan@[b],
    ensures
        r@.len() == plan@.len(),
        forall|k: int|
            0 <= k < plan@.len() ==> (#[trigger] r@[k]).0 == plan@[k] && outcome_of(finished@, plan@[k], r@[k].1),
{
    let ghost orig = finished@;
    let mut rest = finished;
    let mut out: Vec<(Engine, EngineResponse)> = Vec::new();
    let mut k: usize = 0;
    while k < plan.len()
        invariant
            forall|a: int, b: int| 0 <= a < b < plan@.len() ==> plan@[a] != plan@[b],
            k <= plan@.len(),
            out@.len() == k,
            forall|m: int| 0 <= m < k ==> (#[trigger] out@[m]).0 == plan@[m] && outcome_of(orig, plan@[m], out@[m].1),
            forall|m: int| k <= m < plan@.len() ==> first_response(rest@, #[trigger] plan@[m]) == first_response(orig, plan@[m]),
        decreases plan@.len() - k,
    {
        let e = plan[k];
        let mut j: usize = 0;
        while j < rest.len() && rest[j].0 != e
            invariant
                j <= rest@.len(),
                forall|m: int| 0 <= m < j ==> (#[trigger] rest@[m]).0 != e,
            decreases rest@.len() - j,
        {
            j = j + 1;
        }
        proof {
            lemma_first_response_at(rest@, j as int, e);
        }
        if j < rest.len() {
            let ghost before = rest@;
            let (_, resp) = rest.remove(j);
            proof {
                assert forall|m: int| k < m < plan@.len() implies first_response(rest@, #[trigger] plan@[m]) == first_response(orig, plan@[m]) by {
                    assert(plan@[m] != plan@[k as int]);
                    lemma_first_response_remove(before, j as int, plan@[m]);
                }
            }
            out.push((e, resp));
        } else {
            out.push((e, EngineResponse::new()));
        }
        k = k + 1;
    }
    out
}

} // verus!
