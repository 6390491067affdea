//! Aggregates over stored reflections and patterns for a store that hands
//! them out one by one: outcome tallies, the most used tags, and selections
//! that stop once enough entries are kept.
use vstd::prelude::*;
use crate::tools::{strings_view, Outcome};

verus! {

// ---------------------------------------------------------------------------
// Outcome tallies

/// How many reflections ended each way.
#[derive(Debug, Clone, Copy, PartialEq, Eq, Structural)]
pub struct OutcomeTally {
    pub success: u64,
    pub failure: u64,
    pub partial: u64,
}

/// How often `o` occurs in `os`.
pub open spec fn count_outcome(os: Seq<Outcome>, o: Outcome) -> nat
    decreases os.len(),
{
    if os.len() == 0 {
        0
    } else {
        count_outcome(os.drop_last(), o) + if os.last() == o {
            1nat
        } else {
            0nat
        }
    }
}

proof fn lemma_count_outcome_bound(os: Seq<Outcome>, o: Outcome)
    ensures
        count_outcome(os, o) <= os.len(),
    decreases os.len(),
{
    if os.len() > 0 {
        lemma_count_outcome_bound(os.drop_last(), o);
    }
}

/// How often `o` occurs is the number of entries equal to it.
pub proof fn lemma_count_outcome_filter(os: Seq<Outcome>, o: Outcome)
    ensures
        count_outcome(os, o) == os.filter(|x: Outcome| x == o).len(),
    decreases os.len(),
{
    reveal(Seq::filter);
    if os.len() > 0 {
        lemma_count_outcome_filter(os.drop_last(), o);
    }
}

/// The three counts together cover every entry exactly once.
pub proof fn lemma_count_outcome_total(os: Seq<Outcome>)
    ensures
        count_outcome(os, Outcome::Success) + count_outcome(os, Outcome::Failure) + count_outcome(
            os,
            Outcome::Partial,
        ) == os.len(),
    decreases os.len(),
{
    if os.len() > 0 {
        lemma_count_outcome_total(os.drop_last());
    }
}

/// Counts the outcomes of each kind.
pub fn tally_outcomes(outcomes: &Vec<Outcome>) -> (t: OutcomeTally)
    ensures
        t.success == count_outcome(outcomes@, Outcome::Success),
        t.failure == count_outcome(outcomes@, Outcome::Failure),
        t.partial == count_outcome(outcomes@, Outcome::Partial),
        t.success == outcomes@.filter(|x: Outcome| x == Outcome::Success).len(),
        t.failure == outcomes@.filter(|x: Outcome| x == Outcome::Failure).len(),
        t.partial == outcomes@.filter(|x: Outcome| x == Outcome::Partial).len(),
        t.success + t.failure + t.partial == outcomes.len(),
{
    proof {
        lemma_count_outcome_filter(outcomes@, Outcome::Success);
        lemma_count_outcome_filter(outcomes@, Outcome::Failure);
        lemma_count_outcome_filter(outcomes@, Outcome::Partial);
        lemma_count_outcome_total(outcomes@);
    }
    let mut t = OutcomeTally { success: 0, failure: 0, partial: 0 };
    let mut k: usize = 0;
    assert(outcomes@.take(0) =~= Seq::<Outcome>::empty());
    while k < outcomes.len()
        invariant
            k <= outcomes.len(),
            t.success == count_outcome(outcomes@.take(k as int), Outcome::Success),
            t.failure == count_outcome(outcomes@.take(k as int), Outcome::Failure),
            t.partial == count_outcome(outcomes@.take(k as int), Outcome::Partial),
        decreases outcomes.len() - k,
    {
        let ghost pre = outcomes@.take(k as int);
        assert(outcomes@.take(k + 1).drop_last() =~= pre);
        proof {
            lemma_count_outcome_bound(pre, Outcome::Success);
            lemma_count_outcome_bound(pre, Outcome::Failure);
            lemma_count_outcome_bound(pre, Outcome::Partial);
        }
        match outcomes[k] {
            Outcome::Success => t.success = t.success + 1,
            Outcome::Failure => t.failure = t.failure + 1,
            Outcome::Partial => t.partial = t.partial + 1,
        }
        k = k + 1;
    }
    assert(outcomes@.take(outcomes.len() as int) =~= outcomes@);
    t
}

// ---------------------------------------------------------------------------
// Selections that stop once enough entries are kept

/// Going through the entries from `i` on, the positions of those kept, where
/// the walk stops right after keeping an entry that brings the count to
/// `limit` (so a limit of zero still lets one entry through).
pub open spec fn bounded_selection_from(kept: Seq<bool>, limit: int, i: int, acc: Seq<int>) -> Seq<
    int,
>
    decreases kept.len() - i,
{
    if i < 0 || i >= kept.len() {
        acc
    } else if kept[i] {
        let a = acc.push(i);
        if a.len() >= limit {
            a
        } else {
            bounded_selection_from(kept, limit, i + 1, a)
        }
    } else {
        bounded_selection_from(kept, limit, i + 1, acc)
    }
}

pub open spec fn bounded_selection(kept: Seq<bool>, limit: int) -> Seq<int> {
    bounded_selection_from(kept, limit, 0, Seq::empty())
}

proof fn lemma_bounded_selection_from(kept: Seq<bool>, limit: int, i: int, acc: Seq<int>)
    requires
        0 <= i <= kept.len(),
        acc.len() < limit || acc.len() == 0,
        forall|k: int| 0 <= k < acc.len() ==> 0 <= #[trigger] acc[k] < i && kept[acc[k]],
        forall|a: int, b: int| 0 <= a < b < acc.len() ==> acc[a] < acc[b],
        forall|j: int| 0 <= j < i && kept[j] ==> acc.contains(j),
    ensures
        ({
            let r = bounded_selection_from(kept, limit, i, acc);
            let lim = if limit <= 0 {
                1
            } else {
                limit
            };
            &&& forall|j: int|
                0 <= j < kept.len() && kept[j] && (r.len() < lim || j <= r.last()) ==> r.contains(j)
            &&& r.len() <= if limit <= 0 {
                1
            } else {
                limit
            }
            &&& forall|k: int| 0 <= k < r.len() ==> 0 <= #[trigger] r[k] < kept.len() && kept[r[k]]
            &&& forall|a: int, b: int| 0 <= a < b < r.len() ==> r[a] < r[b]
        }),
    decreases kept.len() - i,
{
    if i < kept.len() {
        if kept[i] {
            let a = acc.push(i);
            assert forall|k: int| 0 <= k < a.len() implies 0 <= #[trigger] a[k] < i + 1 && kept[a[k]] by {
                if k < acc.len() {
                    assert(a[k] == acc[k]);
                }
            }
            assert forall|j: int| 0 <= j < i + 1 && kept[j] implies a.contains(j) by {
                if j < i {
                    let w = choose|w: int| 0 <= w < acc.len() && acc[w] == j;
                    assert(a[w] == acc[w]);
                } else {
                    assert(a[acc.len() as int] == i);
                }
            }
            if a.len() < limit {
                lemma_bounded_selection_from(kept, limit, i + 1, a);
            } else {
                assert(a.last() == i);
            }
        } else {
            lemma_bounded_selection_from(kept, limit, i + 1, acc);
        }
    } else {
        assert forall|j: int| 0 <= j < kept.len() && kept[j] implies acc.contains(j) by {}
    }
}

/// A bounded selection keeps only kept entries, in order, and no more than
/// the limit (one, when the limit is zero); it misses no kept entry before
/// the last one it returns, and when it returns fewer than the limit it
/// returns every kept entry.
pub proof fn lemma_bounded_selection(kept: Seq<bool>, limit: int)
    ensures
        ({
            let r = bounded_selection(kept, limit);
            let lim = if limit <= 0 {
                1
            } else {
                limit
            };
            &&& forall|j: int|
                0 <= j < kept.len() && kept[j] && (r.len() < lim || j <= r.last()) ==> r.contains(j)
            &&& r.len() <= if limit <= 0 {
                1
            } else {
                limit
            }
            &&& forall|k: int| 0 <= k < r.len() ==> 0 <= #[trigger] r[k] < kept.len() && kept[r[k]]
            &&& forall|a: int, b: int| 0 <= a < b < r.len() ==> r[a] < r[b]
        }),
{
    lemma_bounded_selection_from(kept, limit, 0, Seq::empty());
}

fn select_bounded(kept: &Vec<bool>, limit: usize) -> (r: Vec<usize>)
    ensures
        r@.map_values(|i: usize| i as int) == bounded_selection(kept@, limit as int),
{
    let mut r: Vec<usize> = Vec::new();
    let mut i: usize = 0;
    assert(r@.map_values(|i: usize| i as int) =~= Seq::<int>::empty());
    while i < kept.len()
        invariant
            i <= kept.len(),
            bounded_selection(kept@, limit as int) == bounded_selection_from(
                kept@,
                limit as int,
                i as int,
                r@.map_values(|i: usize| i as int),
            ),
        decreases kept.len() - i,
    {
        if kept[i] {
            let ghost before = r@.map_values(|i: usize| i as int);
            r.push(i);
            assert(r@.map_values(|i: usize| i as int) =~= before.push(i as int));
            if r.len() >= limit {
                return r;
            }
        }
        i = i + 1;
    }
    r
}

/// The tags of an entry that may not be a reflection at all.
pub open spec fn opt_tags(entry: Option<Vec<String>>) -> Option<Seq<Seq<char>>> {
    match entry {
        Some(tags) => Some(strings_view(tags@)),
        None => None,
    }
}

/// Whether a search keeps an entry: it must be a reflection, and carry one
/// of the wanted tags when any are wanted.
pub open spec fn search_keeps(entry: Option<Seq<Seq<char>>>, wanted: Seq<Seq<char>>) -> bool {
    match entry {
        None => false,
        Some(tags) => wanted.len() == 0 || exists|j: int|
            0 <= j < wanted.len() && tags.contains(#[trigger] wanted[j]),
    }
}

fn contains_any(tags: &Vec<String>, wanted: &Vec<String>) -> (b: bool)
    ensures
        b == exists|j: int|
            0 <= j < wanted.len() && strings_view(tags@).contains(#[trigger] wanted@[j]@),
{
    let ghost tv = strings_view(tags@);
    let mut j: usize = 0;
    while j < wanted.len()
        invariant
            tv == strings_view(tags@),
            j <= wanted.len(),
            forall|m: int| 0 <= m < j ==> !tv.contains(#[trigger] wanted@[m]@),
        decreases wanted.len() - j,
    {
        let mut k: usize = 0;
        while k < tags.len()
            invariant
                tv == strings_view(tags@),
                j < wanted.len(),
                k <= tags.len(),
                forall|m: int| 0 <= m < k ==> tv[m] != wanted@[j as int]@,
            decreases tags.len() - k,
        {
            if tags[k] == wanted[j] {
                assert(tv[k as int] == wanted@[j as int]@);
                return true;
            }
            k = k + 1;
        }
        j = j + 1;
    }
    false
}

/// The positions of the search results to return: reflections that carry
/// one of the wanted tags (any reflection when none is wanted), in order,
/// stopping once `limit` are kept.
pub fn select_search_results(entries: &Vec<Option<Vec<String>>>, wanted: &Vec<String>, limit: usize) -> (r: Vec<usize>)
    ensures
        r@.map_values(|i: usize| i as int) == bounded_selection(
            entries@.map_values(|e: Option<Vec<String>>| search_keeps(opt_tags(e), strings_view(wanted@))),
            limit as int,
        ),
{
    let ghost ws = strings_view(wanted@);
    let mut kept: Vec<bool> = Vec::new();
    let mut k: usize = 0;
    while k < entries.len()
        invariant
            ws == strings_view(wanted@),
            k <= entries.len(),
            kept@ =~= entries@.take(k as int).map_values(
                |e: Option<Vec<String>>| search_keeps(opt_tags(e), ws),
            ),
        decreases entries.len() - k,
    {
        let keep = match &entries[k] {
            None => false,
            Some(tags) => {
                let found = wanted.len() == 0 || contains_any(tags, wanted);
                proof {
                    let tv = strings_view(tags@);
                    if wanted.len() > 0 {
                        if found {
                            let j = choose|j: int|
                                0 <= j < wanted.len() && tv.contains(#[trigger] wanted@[j]@);
                            assert(ws[j] == wanted@[j]@);
                        } else {
                            assert forall|j: int| 0 <= j < ws.len() implies !tv.contains(
                                #[trigger] ws[j],
                            ) by {
                                assert(ws[j] == wanted@[j]@);
                            }
                        }
                    }
                }
                found
            },
        };
        kept.push(keep);
        assert(entries@.take(k + 1) =~= entries@.take(k as int).push(entries@[k as int]));
        k = k + 1;
    }
    assert(entries@.take(entries.len() as int) =~= entries@);
    select_bounded(&kept, limit)
}

/// How many entries a search asks the store for: more when results are to
/// be filtered by tag afterwards.
pub fn search_pool_size(limit: usize, filtering_by_tag: bool) -> (n: usize)
    requires
        filtering_by_tag ==> limit * 5 <= usize::MAX,
    ensures
        n == if filtering_by_tag {
            limit * 5
        } else {
            limit as int
        },
{
    if filtering_by_tag {
        limit * 5
    } else {
        limit
    }
}

/// The positions of the patterns to list: those seen at least
/// `min_occurrences` times, in order, stopping once `limit` are kept.
pub fn select_frequent_patterns(occurrences: &Vec<u32>, min_occurrences: u32, limit: usize) -> (r: Vec<usize>)
    ensures
        r@.map_values(|i: usize| i as int) == bounded_selection(
            occurrences@.map_values(|o: u32| o >= min_occurrences),
            limit as int,
        ),
{
    let mut kept: Vec<bool> = Vec::new();
    let mut k: usize = 0;
    while k < occurrences.len()
        invariant
            k <= occurrences.len(),
            kept@ =~= occurrences@.take(k as int).map_values(|o: u32| o >= min_occurrences),
        decreases occurrences.len() - k,
    {
        kept.push(occurrences[k] >= min_occurrences);
        assert(occurrences@.take(k + 1) =~= occurrences@.take(k as int).push(occurrences@[k as int]));
        k = k + 1;
    }
    assert(occurrences@.take(occurrences.len() as int) =~= occurrences@);
    select_bounded(&kept, limit)
}

// ---------------------------------------------------------------------------
// The most used tags

/// A tag and how often it is used.
#[derive(Debug, Clone)]
pub struct TagTally {
    pub tag: String,
    pub count: u64,
}

/// How often `t` occurs in `tags`.
pub open spec fn tag_occurrences(tags: Seq<Seq<char>>, t: Seq<char>) -> nat
    decreases tags.len(),
{
    if tags.len() == 0 {
        0
    } else {
        tag_occurrences(tags.drop_last(), t) + if tags.last() == t {
            1nat
        } else {
            0nat
        }
    }
}

/// `r` lists `n` most used tags of `all` (all of them when there are fewer),
/// each once, with its number of uses, most used first; tags used equally
/// often may come in any order.
pub open spec fn is_top_tags(r: Seq<(Seq<char>, u64)>, all: Seq<Seq<char>>, n: int) -> bool {
    &&& r.len() <= n
    &&& forall|i: int|
        0 <= i < r.len() ==> all.contains(#[trigger] r[i].0) && r[i].1 == tag_occurrences(
            all,
            r[i].0,
        )
    &&& forall|i: int, j: int| 0 <= i < j < r.len() ==> (#[trigger] r[i]).0 != (#[trigger] r[j]).0
    &&& forall|i: int, j: int| 0 <= i < j < r.len() ==> (#[trigger] r[i]).1 >= (#[trigger] r[j]).1
    &&& forall|t: Seq<char>|
        #[trigger] all.contains(t) && !(exists|i: int| 0 <= i < r.len() && r[i].0 == t) ==> {
            &&& r.len() == n
            &&& (n == 0 || tag_occurrences(all, t) <= r[r.len() - 1].1)
        }
}

pub open spec fn tallies_view(r: Seq<TagTally>) -> Seq<(Seq<char>, u64)> {
    r.map_values(|x: TagTally| (x.tag@, x.count))
}

proof fn lemma_tag_occurrences_push(s: Seq<Seq<char>>, x: Seq<char>, t: Seq<char>)
    ensures
        tag_occurrences(s.push(x), t) == tag_occurrences(s, t) + if x == t {
            1nat
        } else {
            0nat
        },
{
    assert(s.push(x).drop_last() =~= s);
}

proof fn lemma_tag_occurrences_bound(s: Seq<Seq<char>>, t: Seq<char>)
    ensures
        tag_occurrences(s, t) <= s.len(),
    decreases s.len(),
{
    if s.len() > 0 {
        lemma_tag_occurrences_bound(s.drop_last(), t);
    }
}

fn find_string(names: &Vec<String>, x: &String) -> (r: Option<usize>)
    ensures
        match r {
            Some(k) => k < names.len() && names@[k as int]@ == x@,
            None => forall|k: int| 0 <= k < names.len() ==> (#[trigger] names@[k])@ != x@,
        },
{
    let mut k: usize = 0;
    while k < names.len()
        invariant
            k <= names.len(),
            forall|m: int| 0 <= m < k ==> (#[trigger] names@[m])@ != x@,
        decreases names.len() - k,
    {
        if names[k] == *x {
            return Some(k);
        }
        k = k + 1;
    }
    None
}

/// The distinct tags of `all` with their numbers of uses.
pub open spec fn is_tag_count(names: Seq<Seq<char>>, counts: Seq<u64>, all: Seq<Seq<char>>) -> bool {
    &&& names.len() == counts.len()
    &&& forall|i: int|
        0 <= i < names.len() ==> all.contains(#[trigger] names[i]) && counts[i] == tag_occurrences(
            all,
            names[i],
        )
    &&& forall|i: int, j: int| 0 <= i < j < names.len() ==> #[trigger] names[i] != #[trigger] names[j]
    &&& forall|t: Seq<char>| #[trigger] all.contains(t) ==> exists|i: int| 0 <= i < names.len() && names[i] == t
}

fn count_tags(tags: &Vec<String>) -> (d: (Vec<String>, Vec<u64>))
    ensures
        is_tag_count(strings_view(d.0@), d.1@, strings_view(tags@)),
{
    let ghost all = strings_view(tags@);
    let mut names: Vec<String> = Vec::new();
    let mut counts: Vec<u64> = Vec::new();
    let mut j: usize = 0;
    assert(all.take(0) =~= Seq::<Seq<char>>::empty());
    while j < tags.len()
        invariant
            all == strings_view(tags@),
            j <= tags.len(),
            is_tag_count(strings_view(names@), counts@, all.take(j as int)),
        decreases tags.len() - j,
    {
        let ghost seen = all.take(j as int);
        let ghost nv = strings_view(names@);
        let ghost x = tags@[j as int]@;
        assert(all.take(j + 1) =~= seen.push(x));
        proof {
            lemma_tag_occurrences_bound(seen, x);
            assert forall|t: Seq<char>| #[trigger] seen.push(x).contains(t) implies (seen.contains(t)
                || t == x) by {
                let i = choose|i: int| 0 <= i < seen.push(x).len() && seen.push(x)[i] == t;
                if i < seen.len() {
                    assert(seen[i] == t);
                }
            }
            assert forall|t: Seq<char>| seen.contains(t) implies #[trigger] seen.push(x).contains(t) by {
                let i = choose|i: int| 0 <= i < seen.len() && seen[i] == t;
                assert(seen.push(x)[i] == t);
            }
            assert(seen.push(x)[seen.len() as int] == x);
        }
        match find_string(&names, &tags[j]) {
            Some(k) => {
                assert(nv[k as int] == x);
                let c = counts[k];
                counts.set(k, c + 1);
                proof {
                    assert forall|i: int| 0 <= i < nv.len() implies seen.push(x).contains(#[trigger] nv[i])
                        && counts@[i] == tag_occurrences(seen.push(x), nv[i]) by {
                        lemma_tag_occurrences_push(seen, x, nv[i]);
                        if i != k {
                            assert(nv[i] != nv[k as int]);
                        }
                    }
                    assert forall|t: Seq<char>| #[trigger] seen.push(x).contains(t) implies exists|i: int|
                        0 <= i < nv.len() && nv[i] == t by {
                        if t != x {
                            assert(seen.contains(t));
                        }
                    }
                }
            },
            None => {
                names.push(tags[j].clone());
                counts.push(1);
                proof {
                    let nv2 = strings_view(names@);
                    assert(nv2 =~= nv.push(x));
                    assert(tag_occurrences(seen, x) == 0) by {
                        if tag_occurrences(seen, x) > 0 {
                            lemma_tag_occurrences_positive(seen, x);
                            let i = choose|i: int| 0 <= i < nv.len() && nv[i] == x;
                        }
                    }
                    assert forall|i: int| 0 <= i < nv2.len() implies seen.push(x).contains(#[trigger] nv2[i])
                        && counts@[i] == tag_occurrences(seen.push(x), nv2[i]) by {
                        lemma_tag_occurrences_push(seen, x, nv2[i]);
                        if i < nv.len() {
                            assert(nv2[i] == nv[i]);
                        }
                    }
                    assert forall|a: int, b: int| 0 <= a < b < nv2.len() implies #[trigger] nv2[a]
                        != #[trigger] nv2[b] by {
                        if b == nv.len() {
                            assert(nv2[a] == nv[a]);
                        } else {
                            assert(nv2[a] == nv[a] && nv2[b] == nv[b]);
                        }
                    }
                    assert forall|t: Seq<char>| #[trigger] seen.push(x).contains(t) implies exists|i: int|
                        0 <= i < nv2.len() && nv2[i] == t by {
                        if t != x {
                            assert(seen.contains(t));
                            let i = choose|i: int| 0 <= i < nv.len() && nv[i] == t;
                            assert(nv2[i] == t);
                        } else {
                            assert(nv2[nv.len() as int] == x);
                        }
                    }
                }
            },
        }
        j = j + 1;
    }
    assert(all.take(tags.len() as int) =~= all);
    (names, counts)
}

proof fn lemma_tag_occurrences_positive(s: Seq<Seq<char>>, t: Seq<char>)
    requires
        tag_occurrences(s, t) > 0,
    ensures
        s.contains(t),
    decreases s.len(),
{
    if s.last() == t {
        assert(s[s.len() - 1] == t);
    } else {
        lemma_tag_occurrences_positive(s.drop_last(), t);
        let i = choose|i: int| 0 <= i < s.drop_last().len() && s.drop_last()[i] == t;
        assert(s[i] == t);
    }
}

proof fn lemma_swap_tag_count(
    nv: Seq<Seq<char>>,
    cs: Seq<u64>,
    all: Seq<Seq<char>>,
    p: int,
    q: int,
)
    requires
        is_tag_count(nv, cs, all),
        0 <= p < nv.len(),
        0 <= q < nv.len(),
    ensures
        is_tag_count(
            nv.update(p, nv[q]).update(q, nv[p]),
            cs.update(p, cs[q]).update(q, cs[p]),
            all,
        ),
{
    let nv2 = nv.update(p, nv[q]).update(q, nv[p]);
    let cs2 = cs.update(p, cs[q]).update(q, cs[p]);
    let sigma = |i: int| if i == p {
        q
    } else if i == q {
        p
    } else {
        i
    };
    assert forall|i: int| 0 <= i < nv2.len() implies nv2[i] == nv[sigma(i)] && cs2[i] == cs[sigma(
        i,
    )] by {}
    assert forall|i: int| 0 <= i < nv2.len() implies all.contains(#[trigger] nv2[i]) && cs2[i]
        == tag_occurrences(all, nv2[i]) by {
        assert(all.contains(nv[sigma(i)]));
    }
    assert forall|a: int, b: int| 0 <= a < b < nv2.len() implies #[trigger] nv2[a] != #[trigger] nv2[b] by {
        let sa = sigma(a);
        let sb = sigma(b);
        assert(sa != sb);
        if sa < sb {
            assert(nv[sa] != nv[sb]);
        } else {
            assert(nv[sb] != nv[sa]);
        }
    }
    assert forall|t: Seq<char>| #[trigger] all.contains(t) implies exists|i: int|
        0 <= i < nv2.len() && nv2[i] == t by {
        let i = choose|i: int| 0 <= i < nv.len() && nv[i] == t;
        assert(nv2[sigma(i)] == t);
    }
}

/// The `n` most used tags of `tags` (see `is_top_tags`), most used first.
pub fn top_tags(tags: &Vec<String>, n: usize) -> (r: Vec<TagTally>)
    ensures
        is_top_tags(tallies_view(r@), strings_view(tags@), n as int),
{
    let ghost all = strings_view(tags@);
    let (mut names, mut counts) = count_tags(tags);
    let len = names.len();
    let m = if n < len {
        n
    } else {
        len
    };
    let mut pos: usize = 0;
    while pos < m
        invariant
            all == strings_view(tags@),
            is_tag_count(strings_view(names@), counts@, all),
            names.len() == len,
            counts.len() == len,
            pos <= m <= len,
            forall|i: int, j: int| 0 <= i < j < pos ==> counts@[i] >= counts@[j],
            forall|i: int, k: int| 0 <= i < pos <= k < len ==> counts@[i] >= counts@[k],
        decreases m - pos,
    {
        let mut best = pos;
        let mut k = pos + 1;
        while k < len
            invariant
                counts.len() == len,
                pos <= best < len,
                best < k <= len,
                forall|q: int| pos <= q < k ==> counts@[q] <= counts@[best as int],
            decreases len - k,
        {
            if counts[k] > counts[best] {
                best = k;
            }
            k = k + 1;
        }
        let ghost nv = strings_view(names@);
        let ghost cs = counts@;
        proof {
            lemma_swap_tag_count(nv, cs, all, pos as int, best as int);
        }
        let name_at_pos = names[pos].clone();
        let name_at_best = names[best].clone();
        names.set(pos, name_at_best);
        names.set(best, name_at_pos);
        let count_at_pos = counts[pos];
        let count_at_best = counts[best];
        counts.set(pos, count_at_best);
        counts.set(best, count_at_pos);
        assert(strings_view(names@) =~= nv.update(pos as int, nv[best as int]).update(
            best as int,
            nv[pos as int],
        ));
        assert(counts@ =~= cs.update(pos as int, cs[best as int]).update(best as int, cs[pos as int]));
        pos = pos + 1;
    }
    let mut r: Vec<TagTally> = Vec::new();
    let mut i: usize = 0;
    while i < m
        invariant
            names.len() == len,
            counts.len() == len,
            i <= m <= len,
            r.len() == i,
            forall|k: int| 0 <= k < i ==> (#[trigger] r@[k]).tag@ == names@[k]@ && r@[k].count == counts@[k],
        decreases m - i,
    {
        r.push(TagTally { tag: names[i].clone(), count: counts[i] });
        i = i + 1;
    }
    proof {
        let rv = tallies_view(r@);
        let nv = strings_view(names@);
        assert forall|k: int| 0 <= k < rv.len() implies rv[k] == (nv[k], counts@[k]) by {}
        assert forall|t: Seq<char>| #[trigger] all.contains(t) && !(exists|i: int|
            0 <= i < rv.len() && rv[i].0 == t) implies {
            &&& rv.len() == n
            &&& (n == 0 || tag_occurrences(all, t) <= rv[rv.len() - 1].1)
        } by {
            let k = choose|k: int| 0 <= k < nv.len() && nv[k] == t;
            if k < m {
                assert(rv[k].0 == t);
            }
            if n > 0 {
                assert(counts@[m - 1] >= counts@[k]);
            }
        }
    }
    r
}

} // verus!
