use vstd::prelude::*;

use crate::autocomplete::views;
use crate::text::chars_of;

verus! {

/// Lexicographic order on characters by code point: the order of `String`,
/// since UTF-8 keeps code point order.
pub open spec fn lex_lt(a: Seq<char>, b: Seq<char>) -> bool
    decreases a.len(),
{
    if a.len() == 0 {
        b.len() > 0
    } else if b.len() == 0 {
        false
    } else if a[0] != b[0] {
        a[0] < b[0]
    } else {
        lex_lt(a.drop_first(), b.drop_first())
    }
}

/// Strictly increasing: sorted, each domain once.
pub open spec fn strictly_sorted(s: Seq<Seq<char>>) -> bool {
    forall|i: int, j: int| 0 <= i < j < s.len() ==> lex_lt(#[trigger] s[i], #[trigger] s[j])
}

proof fn lemma_lex_irreflexive(a: Seq<char>)
    ensures
        !lex_lt(a, a),
    decreases a.len(),
{
    if a.len() > 0 {
        lemma_lex_irreflexive(a.drop_first());
    }
}

proof fn lemma_lex_total(a: Seq<char>, b: Seq<char>)
    ensures
        a == b || lex_lt(a, b) || lex_lt(b, a),
    decreases a.len(),
{
    if a.len() > 0 && b.len() > 0 && a[0] == b[0] {
        lemma_lex_total(a.drop_first(), b.drop_first());
        if a.drop_first() == b.drop_first() {
            assert(a =~= seq![a[0]] + a.drop_first());
            assert(b =~= seq![b[0]] + b.drop_first());
        }
    } else if a.len() > 0 && b.len() > 0 {
        assert(a[0] != b[0]);
    } else if a.len() == 0 && b.len() == 0 {
        assert(a =~= b);
    }
}

proof fn lemma_lex_transitive(a: Seq<char>, b: Seq<char>, c: Seq<char>)
    requires
        lex_lt(a, b),
        lex_lt(b, c),
    ensures
        lex_lt(a, c),
    decreases a.len(),
{
    if a.len() > 0 && b.len() > 0 && c.len() > 0 && a[0] == b[0] && b[0] == c[0] {
        lemma_lex_transitive(a.drop_first(), b.drop_first(), c.drop_first());
    }
}

fn lex_lt_exec(a: &Vec<char>, b: &Vec<char>) -> (r: bool)
    ensures
        r == lex_lt(a@, b@),
{
    let mut i: usize = 0;
    assert(a@.skip(0) =~= a@);
    assert(b@.skip(0) =~= b@);
    while i < a.len() && i < b.len() && a[i] == b[i]
        invariant
            i <= a@.len(),
            i <= b@.len(),
            lex_lt(a@.skip(i as int), b@.skip(i as int)) == lex_lt(a@, b@),
        decreases a@.len() - i,
    {
        assert(a@.skip(i as int).drop_first() =~= a@.skip(i + 1));
        assert(b@.skip(i as int).drop_first() =~= b@.skip(i + 1));
        i = i + 1;
    }
    assert(a@.skip(i as int).len() == a@.len() - i);
    if i == a.len() {
        i < b.len()
    } else if i == b.len() {
        false
    } else {
        assert(a@.skip(i as int)[0] == a@[i as int]);
        assert(b@.skip(i as int)[0] == b@[i as int]);
        a[i] < b[i]
    }
}

/// Adds a domain to a sorted list, keeping it sorted, each domain once.
fn insert_sorted(set: &mut Vec<String>, domain: &String)
    requires
        strictly_sorted(views(old(set)@)),
    ensures
        strictly_sorted(views(final(set)@)),
        forall|x: Seq<char>| views(final(set)@).contains(x) <==> (views(old(set)@).contains(x) || x == domain@),
{
    let ghost before = views(set@);
    let d = chars_of(domain.as_str());
    let mut p: usize = 0;
    let mut stop = false;
    while p < set.len() && !stop
        invariant
            before == views(set@),
            d@ == domain@,
            p <= set@.len(),
            forall|k: int| 0 <= k < p ==> lex_lt(#[trigger] before[k], domain@),
            stop ==> p < set@.len() && !lex_lt(before[p as int], domain@),
        decreases set@.len() - p + if stop { 0int } else { 1int },
    {
        let e = chars_of(set[p].as_str());
        if lex_lt_exec(&e, &d) {
            p = p + 1;
        } else {
            stop = true;
        }
    }
    if p < set.len() {
        let e = chars_of(set[p].as_str());
        if crate::url::seq_eq(&e, &d) {
            return;
        }
        proof {
            lemma_lex_total(before[p as int], domain@);
        }
    }
    set.insert(p, String::from_str(domain.as_str()));
    let ghost after = views(set@);
    assert(after =~= before.insert(p as int, domain@));
    assert forall|i: int, j: int| 0 <= i < j < after.len() implies lex_lt(#[trigger] after[i], #[trigger] after[j]) by {
        if i < p && j == p {
        } else if i < p && j > p {
            assert(after[j] == before[j - 1]);
            if j - 1 > i {
            }
        } else if i == p && j > p {
            assert(after[j] == before[j - 1]);
            if j - 1 > p {
                lemma_lex_transitive(domain@, before[p as int], before[j - 1]);
            }
        } else if i > p {
            assert(after[i] == before[i - 1] && after[j] == before[j - 1]);
        }
    }
    assert forall|x: Seq<char>| after.contains(x) <==> (before.contains(x) || x == domain@) by {
        if after.contains(x) {
            let k = choose|k: int| 0 <= k < after.len() && after[k] == x;
            if k < p {
                assert(before[k] == x);
            } else if k > p {
                assert(before[k - 1] == x);
            }
        }
        if before.contains(x) {
            let k = choose|k: int| 0 <= k < before.len() && before[k] == x;
            if k < p {
                assert(after[k] == x);
            } else {
                assert(after[k + 1] == x);
            }
        }
        if x == domain@ {
            assert(after[p as int] == x);
        }
    }
}

/// The domains as a set: sorted by character order, each once.
pub fn domain_set(domains: &Vec<String>) -> (r: Vec<String>)
    ensures
        strictly_sorted(views(r@)),
        forall|x: Seq<char>| views(r@).contains(x) <==> views(domains@).contains(x),
{
    let mut set: Vec<String> = Vec::new();
    let mut k: usize = 0;
    while k < domains.len()
        invariant
            k <= domains@.len(),
            strictly_sorted(views(set@)),
            forall|x: Seq<char>| views(set@).contains(x) <==> views(domains@.take(k as int)).contains(x),
        decreases domains@.len() - k,
    {
        let ghost before = views(set@);
        insert_sorted(&mut set, &domains[k]);
        assert forall|x: Seq<char>| views(set@).contains(x) <==> views(domains@.take(k + 1)).contains(x) by {
            let t0 = views(domains@.take(k as int));
            let t1 = views(domains@.take(k + 1));
            assert(t1 =~= t0.push(domains@[k as int]@));
            if t1.contains(x) {
                let m = choose|m: int| 0 <= m < t1.len() && t1[m] == x;
                if m < t0.len() {
                    assert(t0[m] == x);
                }
            }
            if t0.contains(x) {
                let m = choose|m: int| 0 <= m < t0.len() && t0[m] == x;
                assert(t1[m] == x);
            }
            if x == domains@[k as int]@ {
                assert(t1[k as int] == x);
            }
        }
        k = k + 1;
    }
    assert(domains@.take(domains@.len() as int) =~= domains@);
    set
}

} // verus!
