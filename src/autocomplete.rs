use vstd::prelude::*;

use crate::text::{chars_of, lower_of, lowercase, string_of};

verus! {

/// The control character that a query prefix may not hold.
pub const ESCAPE: char = '\u{1b}';

pub open spec fn views(s: Seq<String>) -> Seq<Seq<char>> {
    s.map_values(|x: String| x@)
}

/// Keeps each item whose key no earlier item had.
pub open spec fn dedup_by_key(items: Seq<Seq<char>>, keys: Seq<Seq<char>>) -> Seq<Seq<char>>
    decreases items.len(),
{
    if items.len() == 0 || keys.len() != items.len() {
        Seq::empty()
    } else if keys.drop_last().contains(keys.last()) {
        dedup_by_key(items.drop_last(), keys.drop_last())
    } else {
        dedup_by_key(items.drop_last(), keys.drop_last()).push(items.last())
    }
}

/// The suggestion lists concatenated in order.
pub open spec fn flatten(lists: Seq<Vec<String>>) -> Seq<Seq<char>>
    decreases lists.len(),
{
    if lists.len() == 0 {
        Seq::empty()
    } else {
        flatten(lists.drop_last()) + views(lists.last()@)
    }
}

pub open spec fn lower_all(s: Seq<Seq<char>>) -> Seq<Seq<char>> {
    s.map_values(|x: Seq<char>| lower_of(x))
}

/// The merged suggestions: in order, each kept unless an earlier one is equal
/// to it ignoring case.
pub open spec fn spec_merge_suggestions(lists: Seq<Vec<String>>) -> Seq<Seq<char>> {
    dedup_by_key(flatten(lists), lower_all(flatten(lists)))
}

/// Deduplicates suggestions by their folded keys, keeping first occurrences.
pub fn dedup_suggestions(items: &Vec<String>, keys: &Vec<String>) -> (r: Vec<String>)
    requires
        items@.len() == keys@.len(),
    ensures
        views(r@) == dedup_by_key(views(items@), views(keys@)),
{
    let mut out: Vec<String> = Vec::new();
    let mut i: usize = 0;
    assert(views(out@) =~= dedup_by_key(views(items@.take(0)), views(keys@.take(0))));
    while i < items.len()
        invariant
            items@.len() == keys@.len(),
            i <= items@.len(),
            views(out@) == dedup_by_key(views(items@.take(i as int)), views(keys@.take(i as int))),
        decreases items@.len() - i,
    {
        let ghost ki = views(keys@.take(i + 1));
        let mut seen = false;
        let mut j: usize = 0;
        while j < i
            invariant
                items@.len() == keys@.len(),
                i < items@.len(),
                j <= i,
                ki == views(keys@.take(i + 1)),
                seen == exists|m: int| 0 <= m < j && keys@[m]@ == keys@[i as int]@,
            decreases i - j,
        {
            if crate::url::seq_eq(&chars_of(keys[j].as_str()), &chars_of(keys[i].as_str())) {
                seen = true;
            }
            j = j + 1;
        }
        proof {
            assert(views(items@.take(i + 1)).drop_last() =~= views(items@.take(i as int)));
            assert(ki.drop_last() =~= views(keys@.take(i as int)));
            if seen {
                let m = choose|m: int| 0 <= m < i && keys@[m]@ == keys@[i as int]@;
                assert(ki.drop_last()[m] == ki.last());
            } else {
                assert forall|m: int| 0 <= m < ki.drop_last().len() implies ki.drop_last()[m] != ki.last() by {
                    assert(ki.drop_last()[m] == keys@[m]@);
                }
            }
        }
        if !seen {
            out.push(items[i].clone());
            assert(views(out@) =~= dedup_by_key(views(items@.take(i as int)), views(keys@.take(i as int))).push(items@[i as int]@));
        }
        i = i + 1;
    }
    assert(items@.take(items@.len() as int) =~= items@);
    assert(keys@.take(keys@.len() as int) =~= keys@);
    out
}

/// Merges the suggestion lists of the backends, in registry order: each
/// suggestion is kept unless an earlier one equals it ignoring case.
pub fn merge_suggestions(lists: &Vec<Vec<String>>) -> (r: Vec<String>)
    ensures
        views(r@) == spec_merge_suggestions(lists@),
{
    let mut items: Vec<String> = Vec::new();
    let mut keys: Vec<String> = Vec::new();
    let mut i: usize = 0;
    assert(lists@.take(0) =~= Seq::<Vec<String>>::empty());
    while i < lists.len()
        invariant
            i <= lists@.len(),
            views(items@) == flatten(lists@.take(i as int)),
            views(keys@) == lower_all(views(items@)),
        decreases lists@.len() - i,
    {
        let list = &lists[i];
        let ghost base = views(items@);
        let mut j: usize = 0;
        assert(views(list@.take(0)) =~= Seq::<Seq<char>>::empty());
        while j < list.len()
            invariant
                i < lists@.len(),
                *list == lists@[i as int],
                j <= list@.len(),
                views(items@) == base + views(list@.take(j as int)),
                views(keys@) == lower_all(views(items@)),
            decreases list@.len() - j,
        {
            let s = &list[j];
            let ghost items0 = items@;
            let ghost keys0 = keys@;
            let c = s.clone();
            let k = lowercase(s.as_str());
            items.push(c);
            keys.push(k);
            assert(views(items@) =~= views(items0).push(s@));
            assert(views(keys@) =~= views(keys0).push(lower_of(s@)));
            assert(lower_all(views(items@)) =~= lower_all(views(items0)).push(lower_of(s@)));
            assert(views(list@.take(j + 1)) =~= views(list@.take(j as int)).push(list@[j as int]@));
            assert(views(items@) =~= base + views(list@.take(j + 1)));
            assert(views(keys@) =~= lower_all(views(items@)));
            j = j + 1;
        }
        proof {
            assert(lists@.take(i + 1).drop_last() =~= lists@.take(i as int));
            assert(list@.take(list@.len() as int) =~= list@);
        }
        i = i + 1;
    }
    assert(lists@.take(lists@.len() as int) =~= lists@);
    dedup_suggestions(&items, &keys)
}

pub open spec fn dedup_lowered(items: Seq<Seq<char>>) -> Seq<Seq<char>> {
    dedup_by_key(items, lower_all(items))
}

proof fn lemma_step(items: Seq<Seq<char>>)
    requires
        items.len() > 0,
    ensures
        (exists|j: int| 0 <= j < items.len() - 1 && #[trigger] lower_of(items[j]) == lower_of(items.last()))
            ==> dedup_lowered(items) == dedup_lowered(items.drop_last()),
        !(exists|j: int| 0 <= j < items.len() - 1 && #[trigger] lower_of(items[j]) == lower_of(items.last()))
            ==> dedup_lowered(items) == dedup_lowered(items.drop_last()).push(items.last()),
{
    let p = items.drop_last();
    let keys = lower_all(items);
    assert(keys.drop_last() =~= lower_all(p));
    assert(keys.last() == lower_of(items.last()));
    if exists|j: int| 0 <= j < items.len() - 1 && #[trigger] lower_of(items[j]) == lower_of(items.last()) {
        let j = choose|j: int| 0 <= j < items.len() - 1 && #[trigger] lower_of(items[j]) == lower_of(items.last());
        assert(keys.drop_last()[j] == keys.last());
    } else {
        assert(!keys.drop_last().contains(keys.last())) by {
            if keys.drop_last().contains(keys.last()) {
                let j = choose|j: int| 0 <= j < keys.drop_last().len() && keys.drop_last()[j] == keys.last();
                assert(lower_of(items[j]) == lower_of(items.last()));
            }
        }
    }
}

proof fn lemma_members(items: Seq<Seq<char>>)
    ensures
        forall|a: int| #![trigger dedup_lowered(items)[a]] 0 <= a < dedup_lowered(items).len() ==> exists|j: int|
            0 <= j < items.len() && #[trigger] items[j] == dedup_lowered(items)[a],
    decreases items.len(),
{
    if items.len() > 0 {
        let p = items.drop_last();
        lemma_members(p);
        lemma_step(items);
        let r = dedup_lowered(items);
        let rp = dedup_lowered(p);
        assert forall|a: int| #![trigger r[a]] 0 <= a < r.len() implies exists|j: int| 0 <= j < items.len() && #[trigger] items[j] == r[a] by {
            if a < rp.len() {
                let j = choose|j: int| 0 <= j < p.len() && #[trigger] p[j] == rp[a];
                assert(items[j] == r[a]);
            } else {
                assert(items[items.len() - 1] == r[a]);
            }
        }
    }
}

proof fn lemma_distinct(items: Seq<Seq<char>>)
    ensures
        forall|a: int, b: int| 0 <= a < b < dedup_lowered(items).len() ==> lower_of(#[trigger] dedup_lowered(items)[a])
            != lower_of(#[trigger] dedup_lowered(items)[b]),
    decreases items.len(),
{
    if items.len() > 0 {
        let p = items.drop_last();
        lemma_distinct(p);
        lemma_members(p);
        lemma_step(items);
        let r = dedup_lowered(items);
        let rp = dedup_lowered(p);
        assert forall|a: int, b: int| 0 <= a < b < r.len() implies lower_of(#[trigger] r[a]) != lower_of(#[trigger] r[b]) by {
            if b >= rp.len() {
                let j = choose|j: int| 0 <= j < p.len() && #[trigger] p[j] == rp[a];
                assert(items[j] == p[j]);
            } else {
                assert(r[a] == rp[a]);
            }
        }
    }
}

proof fn lemma_cover(items: Seq<Seq<char>>)
    ensures
        forall|i: int| #![trigger items[i]] 0 <= i < items.len() ==> exists|a: int|
            0 <= a < dedup_lowered(items).len() && lower_of(#[trigger] dedup_lowered(items)[a]) == lower_of(items[i]),
    decreases items.len(),
{
    if items.len() > 0 {
        let p = items.drop_last();
        lemma_cover(p);
        lemma_step(items);
        let r = dedup_lowered(items);
        let rp = dedup_lowered(p);
        assert forall|i: int| #![trigger items[i]] 0 <= i < items.len() implies exists|a: int|
            0 <= a < r.len() && lower_of(#[trigger] r[a]) == lower_of(items[i]) by {
            if i < p.len() {
                assert(items[i] == p[i]);
                let a = choose|a: int| 0 <= a < rp.len() && lower_of(#[trigger] rp[a]) == lower_of(p[i]);
                assert(r[a] == rp[a]);
            } else if exists|j: int| 0 <= j < items.len() - 1 && #[trigger] lower_of(items[j]) == lower_of(items.last()) {
                let j = choose|j: int| 0 <= j < items.len() - 1 && #[trigger] lower_of(items[j]) == lower_of(items.last());
                assert(items[j] == p[j]);
                let a = choose|a: int| 0 <= a < rp.len() && lower_of(#[trigger] rp[a]) == lower_of(p[j]);
                assert(r[a] == rp[a]);
            } else {
                assert(r[r.len() - 1] == items[i]);
            }
        }
    }
}

/// The merged suggestions hold no two that are equal ignoring case; each
/// is a suggestion some backend made; and every suggestion made is, ignoring
/// case, among them.
pub proof fn lemma_suggestions_case_insensitive(lists: Seq<Vec<String>>)
    ensures
        ({
            let c = flatten(lists);
            let r = spec_merge_suggestions(lists);
            &&& forall|a: int, b: int| 0 <= a < b < r.len() ==> lower_of(#[trigger] r[a]) != lower_of(#[trigger] r[b])
            &&& forall|a: int| #![trigger r[a]] 0 <= a < r.len() ==> exists|j: int| 0 <= j < c.len() && #[trigger] c[j] == r[a]
            &&& forall|i: int| #![trigger c[i]] 0 <= i < c.len() ==> exists|a: int| 0 <= a < r.len() && lower_of(#[trigger] r[a]) == lower_of(#[trigger] c[i])
        }),
{
    lemma_members(flatten(lists));
    lemma_distinct(flatten(lists));
    lemma_cover(flatten(lists));
}

/// A newline becomes a space.
pub open spec fn newline_to_space(c: char) -> char {
    if c == '\n' {
        ' '
    } else {
        c
    }
}

/// The characters of `s` without `c`.
pub open spec fn without_char(s: Seq<char>, c: char) -> Seq<char>
    decreases s.len(),
{
    if s.len() == 0 {
        s
    } else if s.last() == c {
        without_char(s.drop_last(), c)
    } else {
        without_char(s.drop_last(), c).push(s.last())
    }
}

/// An autocomplete query prefix, checked before dispatch.
#[derive(Debug)]
pub enum AutocompleteInput {
    /// The prefix held the escape character: the text without it, echoed
    /// back with a client error and no suggestions.
    Rejected(String),
    /// The prefix to dispatch.
    Accepted(String),
}

/// Checks a query prefix: newlines become spaces, and a prefix that holds
/// the escape character is rejected.
pub fn check_autocomplete_query(raw: &str) -> (r: AutocompleteInput)
    ensures
        ({
            let q = raw@.map_values(|c: char| newline_to_space(c));
            match r {
                AutocompleteInput::Rejected(s) => q.contains(ESCAPE) && s@ == without_char(q, ESCAPE),
                AutocompleteInput::Accepted(s) => !q.contains(ESCAPE) && s@ == q,
            }
        }),
{
    let chars = chars_of(raw);
    let ghost q = raw@.map_values(|c: char| newline_to_space(c));
    let mut spaced: Vec<char> = Vec::new();
    let mut stripped: Vec<char> = Vec::new();
    let mut found = false;
    let mut i: usize = 0;
    while i < chars.len()
        invariant
            chars@ == raw@,
            q == raw@.map_values(|c: char| newline_to_space(c)),
            i <= chars@.len(),
            spaced@ == q.take(i as int),
            stripped@ == without_char(q.take(i as int), ESCAPE),
            found == q.take(i as int).contains(ESCAPE),
        decreases chars@.len() - i,
    {
        let c = if chars[i] == '\n' {
            ' '
        } else {
            chars[i]
        };
        proof {
            assert(q.take(i + 1) =~= q.take(i as int).push(c));
            assert(q.take(i + 1).drop_last() =~= q.take(i as int));
        }
        spaced.push(c);
        if c == ESCAPE {
            found = true;
        } else {
            stripped.push(c);
            assert(!q.take(i as int).contains(ESCAPE) ==> !q.take(i + 1).contains(ESCAPE)) by {
                if !q.take(i as int).contains(ESCAPE) && q.take(i + 1).contains(ESCAPE) {
                    let t = q.take(i + 1);
                    let m = choose|m: int| 0 <= m < t.len() && t[m] == ESCAPE;
                    assert(q.take(i as int)[m] == ESCAPE);
                }
            }
            assert(q.take(i as int).contains(ESCAPE) ==> q.take(i + 1).contains(ESCAPE)) by {
                if q.take(i as int).contains(ESCAPE) {
                    let t = q.take(i as int);
                    let m = choose|m: int| 0 <= m < t.len() && t[m] == ESCAPE;
                    assert(q.take(i + 1)[m] == ESCAPE);
                }
            }
        }
        if c == ESCAPE {
            assert(q.take(i + 1)[i as int] == ESCAPE);
        }
        i = i + 1;
    }
    assert(q.take(q.len() as int) =~= q);
    if found {
        AutocompleteInput::Rejected(string_of(&stripped))
    } else {
        AutocompleteInput::Accepted(string_of(&spaced))
    }
}

} // verus!
