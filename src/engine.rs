use vstd::prelude::*;

use crate::text::str_eq;

verus! {

/// A backend: one search, answer, autocomplete or postsearch provider.
/// The order of the variants is the registry order.
#[derive(Clone, Copy, Debug, PartialEq, Eq, Structural, Hash)]
pub enum Engine {
    Google,
    Bing,
    Brave,
    Marginalia,
    Yep,
    GoogleScholar,
    Random,
    UrbanDictionary,
}

/// Number of registered backends.
pub const ENGINE_COUNT: usize = 8;

/// Weights are fixed point: this value stands for a weight of 1.0.
pub const WEIGHT_ONE: u64 = 1000;

impl Engine {
    /// The registry, in registration order.
    pub open spec fn spec_all() -> Seq<Engine> {
        seq![
            Engine::Google,
            Engine::Bing,
            Engine::Brave,
            Engine::Marginalia,
            Engine::Yep,
            Engine::GoogleScholar,
            Engine::Random,
            Engine::UrbanDictionary,
        ]
    }

    /// Position of the backend in the registry.
    pub open spec fn index(self) -> int {
        match self {
            Engine::Google => 0,
            Engine::Bing => 1,
            Engine::Brave => 2,
            Engine::Marginalia => 3,
            Engine::Yep => 4,
            Engine::GoogleScholar => 5,
            Engine::Random => 6,
            Engine::UrbanDictionary => 7,
        }
    }

    pub open spec fn spec_id(self) -> Seq<char> {
        match self {
            Engine::Google => "google"@,
            Engine::Bing => "bing"@,
            Engine::Brave => "brave"@,
            Engine::Marginalia => "marginalia"@,
            Engine::Yep => "yep"@,
            Engine::GoogleScholar => "google_scholar"@,
            Engine::Random => "random"@,
            Engine::UrbanDictionary => "urbandictionary"@,
        }
    }

    pub open spec fn spec_id_proper(self) -> Seq<char> {
        match self {
            Engine::Google => "Google"@,
            Engine::Bing => "Bing"@,
            Engine::Brave => "Brave"@,
            Engine::Marginalia => "Marginalia"@,
            Engine::Yep => "Yep"@,
            Engine::GoogleScholar => "GoogleScholar"@,
            Engine::Random => "Random"@,
            Engine::UrbanDictionary => "UrbanDictionary"@,
        }
    }

    /// Rank weight in thousandths (`WEIGHT_ONE` is 1.0).
    pub open spec fn spec_weight(self) -> nat {
        match self {
            Engine::Google => 1050,
            Engine::Brave => 1250,
            Engine::Marginalia => 150,
            Engine::Yep => 100,
            _ => 1000,
        }
    }

    pub open spec fn spec_is_scholarly(self) -> bool {
        self == Engine::GoogleScholar
    }

    pub open spec fn spec_enabled_by_default(self) -> bool {
        self != Engine::GoogleScholar
    }

    /// Backends with the search capability.
    pub open spec fn spec_has_search(self) -> bool {
        match self {
            Engine::Google | Engine::Bing | Engine::Brave | Engine::Marginalia | Engine::Yep
            | Engine::GoogleScholar => true,
            _ => false,
        }
    }

    /// Answer matchers: they answer from the query text alone.
    pub open spec fn spec_is_answer(self) -> bool {
        self == Engine::Random
    }

    pub open spec fn spec_has_autocomplete(self) -> bool {
        match self {
            Engine::Google | Engine::Bing | Engine::Brave => true,
            _ => false,
        }
    }

    pub open spec fn spec_has_postsearch(self) -> bool {
        self == Engine::UrbanDictionary
    }

    /// Every backend stands in the registry, at its index.
    pub proof fn lemma_in_registry(self)
        ensures
            0 <= self.index() < Engine::spec_all().len(),
            Engine::spec_all()[self.index()] == self,
            Engine::spec_all().len() == ENGINE_COUNT,
    {
    }

    /// External ids tell backends apart.
    pub proof fn lemma_ids_distinct(a: Engine, b: Engine)
        ensures
            a.spec_id() == b.spec_id() ==> a == b,
    {
        reveal_strlit("google");
        reveal_strlit("bing");
        reveal_strlit("brave");
        reveal_strlit("marginalia");
        reveal_strlit("yep");
        reveal_strlit("google_scholar");
        reveal_strlit("random");
        reveal_strlit("urbandictionary");
        if a.spec_id() == b.spec_id() && a != b {
            assert(a.spec_id().len() == b.spec_id().len());
            assert(a.spec_id()[0] == b.spec_id()[0]);
            assert(a.spec_id()[1] == b.spec_id()[1]);
            assert(a.spec_id()[a.spec_id().len() - 1] == b.spec_id()[b.spec_id().len() - 1]);
        }
    }

    /// The fixed, ordered registry of backends.
    pub fn all() -> (r: Vec<Engine>)
        ensures
            r@ == Engine::spec_all(),
    {
        let r = vec![
            Engine::Google,
            Engine::Bing,
            Engine::Brave,
            Engine::Marginalia,
            Engine::Yep,
            Engine::GoogleScholar,
            Engine::Random,
            Engine::UrbanDictionary,
        ];
        assert(r@ =~= Engine::spec_all());
        r
    }

    /// Stable external id, used in preferences and URLs.
    pub fn id(&self) -> (r: &'static str)
        ensures
            r@ == self.spec_id(),
    {
        match self {
            Engine::Google => "google",
            Engine::Bing => "bing",
            Engine::Brave => "brave",
            Engine::Marginalia => "marginalia",
            Engine::Yep => "yep",
            Engine::GoogleScholar => "google_scholar",
            Engine::Random => "random",
            Engine::UrbanDictionary => "urbandictionary",
        }
    }

    /// Display name.
    pub fn id_proper(&self) -> (r: &'static str)
        ensures
            r@ == self.spec_id_proper(),
    {
        match self {
            Engine::Google => "Google",
            Engine::Bing => "Bing",
            Engine::Brave => "Brave",
            Engine::Marginalia => "Marginalia",
            Engine::Yep => "Yep",
            Engine::GoogleScholar => "GoogleScholar",
            Engine::Random => "Random",
            Engine::UrbanDictionary => "UrbanDictionary",
        }
    }

    /// Looks a backend up by its external id.
    pub fn from_id(id: &str) -> (r: Option<Engine>)
        ensures
            match r {
                Some(e) => e.spec_id() == id@,
                None => forall|e: Engine| e.spec_id() != id@,
            },
            forall|e: Engine| e.spec_id() == id@ ==> r == Some(e),
    {
        let all = Engine::all();
        let mut i: usize = 0;
        while i < all.len()
            invariant
                all@ == Engine::spec_all(),
                i <= all@.len(),
                forall|k: int| 0 <= k < i ==> (#[trigger] all@[k]).spec_id() != id@,
            decreases all@.len() - i,
        {
            let e = all[i];
            if str_eq(e.id(), id) {
                proof {
                    assert forall|x: Engine| x.spec_id() == id@ implies Some(e) == Some(x) by {
                        Engine::lemma_ids_distinct(e, x);
                    }
                }
                return Some(e);
            }
            i = i + 1;
        }
        assert forall|e: Engine| e.spec_id() != id@ by {
            e.lemma_in_registry();
            assert(all@[e.index()] == e);
        }
        None
    }

    /// Rank weight in thousandths.
    pub fn weight(&self) -> (r: u64)
        ensures
            r as nat == self.spec_weight(),
    {
        match self {
            Engine::Google => 1050,
            Engine::Brave => 1250,
            Engine::Marginalia => 150,
            Engine::Yep => 100,
            _ => 1000,
        }
    }

    /// Whether the backend serves academic sources.
    pub fn is_scholarly(&self) -> (r: bool)
        ensures
            r == self.spec_is_scholarly(),
    {
        matches!(self, Engine::GoogleScholar)
    }

    pub fn is_enabled_by_default(&self) -> (r: bool)
        ensures
            r == self.spec_enabled_by_default(),
    {
        !matches!(self, Engine::GoogleScholar)
    }

    pub fn has_search(&self) -> (r: bool)
        ensures
            r == self.spec_has_search(),
    {
        matches!(
            self,
            Engine::Google | Engine::Bing | Engine::Brave | Engine::Marginalia | Engine::Yep
                | Engine::GoogleScholar
        )
    }

    pub fn is_answer(&self) -> (r: bool)
        ensures
            r == self.spec_is_answer(),
    {
        matches!(self, Engine::Random)
    }

    pub fn has_autocomplete(&self) -> (r: bool)
        ensures
            r == self.spec_has_autocomplete(),
    {
        matches!(self, Engine::Google | Engine::Bing | Engine::Brave)
    }

    pub fn has_postsearch(&self) -> (r: bool)
        ensures
            r == self.spec_has_postsearch(),
    {
        matches!(self, Engine::UrbanDictionary)
    }
}

} // verus!
