//! Choosing the latest date that every component's calendar offers.
use vstd::prelude::*;
use crate::calendar::{calendar_address, FetchError};
use crate::date::{later, lemma_later_asymmetric, lemma_later_total, lemma_later_transitive, Date};

verus! {

/// The dates of one component, as text.
pub open spec fn date_views(v: Seq<Date>) -> Seq<Seq<char>> {
    v.map_values(|d: Date| d@)
}

/// The date lists of several components, as text.
pub open spec fn set_views(v: Seq<Vec<Date>>) -> Seq<Seq<Seq<char>>> {
    v.map_values(|c: Vec<Date>| date_views(c@))
}

/// `d` is among the dates of every component.
pub open spec fn in_every(d: Seq<char>, sets: Seq<Seq<Seq<char>>>) -> bool {
    forall|i: int| 0 <= i < sets.len() ==> #[trigger] sets[i].contains(d)
}

/// `d` is a common date of the (at least one) components, and no common date
/// comes after it.
pub open spec fn is_latest_common(d: Seq<char>, sets: Seq<Seq<Seq<char>>>) -> bool {
    &&& sets.len() > 0
    &&& in_every(d, sets)
    &&& forall|t: Seq<char>| #[trigger] in_every(t, sets) ==> !later(t, d)
}

/// The latest common date of the components, if they have one.
pub open spec fn resolution(sets: Seq<Seq<Seq<char>>>) -> Option<Seq<char>> {
    if exists|d: Seq<char>| is_latest_common(d, sets) {
        Some(choose|d: Seq<char>| is_latest_common(d, sets))
    } else {
        None
    }
}

/// There is at most one latest common date.
pub proof fn lemma_latest_common_unique(a: Seq<char>, b: Seq<char>, sets: Seq<Seq<Seq<char>>>)
    requires
        is_latest_common(a, sets),
        is_latest_common(b, sets),
    ensures
        a == b,
{
    assert(in_every(a, sets) && in_every(b, sets));
    lemma_later_total(a, b);
}

/// A latest common date is what the resolution gives.
pub proof fn lemma_resolution_is(d: Seq<char>, sets: Seq<Seq<Seq<char>>>)
    requires
        is_latest_common(d, sets),
    ensures
        resolution(sets) == Some(d),
{
    let c = choose|c: Seq<char>| is_latest_common(c, sets);
    lemma_latest_common_unique(c, d, sets);
}

/// Whether `d` is one of the dates in `v`.
fn contains_date(v: &Vec<Date>, d: &Date) -> (r: bool)
    ensures
        r == date_views(v@).contains(d@),
{
    let mut i: usize = 0;
    while i < v.len()
        invariant
            0 <= i <= v.len(),
            forall|k: int| 0 <= k < i ==> v@[k]@ != d@,
        decreases v.len() - i,
    {
        if v[i] == *d {
            assert(date_views(v@)[i as int] == d@);
            return true;
        }
        i = i + 1;
    }
    proof {
        if date_views(v@).contains(d@) {
            let k = choose|k: int| 0 <= k < date_views(v@).len() && date_views(v@)[k] == d@;
            assert(v@[k]@ == d@);
        }
    }
    false
}

/// Whether `d` is one of the dates of every component in `sets`.
fn in_all(sets: &Vec<Vec<Date>>, d: &Date) -> (r: bool)
    ensures
        r == in_every(d@, set_views(sets@)),
{
    let mut i: usize = 0;
    while i < sets.len()
        invariant
            0 <= i <= sets.len(),
            forall|k: int| 0 <= k < i ==> #[trigger] set_views(sets@)[k].contains(d@),
        decreases sets.len() - i,
    {
        if !contains_date(&sets[i], d) {
            assert(!set_views(sets@)[i as int].contains(d@));
            return false;
        }
        i = i + 1;
    }
    true
}

/// The latest date found in every one of `sets`; `None` when there is no
/// common date, or no set at all. The first set is scanned, and each of its
/// dates looked up in the others.
pub fn latest_common_date(sets: &Vec<Vec<Date>>) -> (r: Option<Date>)
    ensures
        r is Some <==> resolution(set_views(sets@)) is Some,
        r matches Some(d) ==> resolution(set_views(sets@)) == Some(d@),
        r matches Some(d) ==> is_latest_common(d@, set_views(sets@)),
{
    let ghost sv = set_views(sets@);
    if sets.len() == 0 {
        return None;
    }
    let pivot = &sets[0];
    assert(sv[0] == date_views(pivot@));
    let mut best: Option<usize> = None;
    let mut i: usize = 0;
    while i < pivot.len()
        invariant
            sv == set_views(sets@),
            sets.len() > 0,
            sv[0] == date_views(pivot@),
            0 <= i <= pivot.len(),
            best matches Some(b) ==> b < i && in_every(pivot@[b as int]@, sv),
            best matches Some(b) ==> forall|k: int|
                0 <= k < i && #[trigger] in_every(pivot@[k]@, sv) ==> !later(pivot@[k]@, pivot@[b as int]@),
            best is None ==> forall|k: int| 0 <= k < i ==> !#[trigger] in_every(pivot@[k]@, sv),
        decreases pivot.len() - i,
    {
        if in_all(sets, &pivot[i]) {
            match best {
                None => {
                    proof {
                        lemma_later_asymmetric(pivot@[i as int]@, pivot@[i as int]@);
                    }
                    best = Some(i);
                },
                Some(b) => {
                    if pivot[i].is_later_than(&pivot[b]) {
                        proof {
                            assert forall|k: int|
                                0 <= k < i + 1 && #[trigger] in_every(pivot@[k]@, sv) implies !later(
                                pivot@[k]@,
                                pivot@[i as int]@,
                            ) by {
                                if k < i && later(pivot@[k]@, pivot@[i as int]@) {
                                    lemma_later_transitive(pivot@[k]@, pivot@[i as int]@, pivot@[b as int]@);
                                }
                                if k == i {
                                    lemma_later_asymmetric(pivot@[k]@, pivot@[k]@);
                                }
                            }
                        }
                        best = Some(i);
                    }
                },
            }
        }
        i = i + 1;
    }
    match best {
        None => {
            proof {
                if resolution(sv) is Some {
                    let d = choose|d: Seq<char>| is_latest_common(d, sv);
                    assert(sv[0].contains(d));
                    let k = choose|k: int| 0 <= k < sv[0].len() && sv[0][k] == d;
                    assert(in_every(pivot@[k]@, sv));
                }
            }
            None
        },
        Some(b) => {
            let d = pivot[b].clone();
            proof {
                assert forall|t: Seq<char>| #[trigger] in_every(t, sv) implies !later(t, d@) by {
                    assert(sv[0].contains(t));
                    let k = choose|k: int| 0 <= k < sv[0].len() && sv[0][k] == t;
                    assert(in_every(pivot@[k]@, sv));
                }
                lemma_resolution_is(d@, sv);
            }
            Some(d)
        },
    }
}

/// Among the entries of `s` that are common dates, one that no other comes after.
proof fn lemma_latest_among(s: Seq<Seq<char>>, sets: Seq<Seq<Seq<char>>>)
    requires
        exists|k: int| 0 <= k < s.len() && #[trigger] in_every(s[k], sets),
    ensures
        exists|d: Seq<char>|
            #![trigger in_every(d, sets)]
            in_every(d, sets) && s.contains(d) && forall|k: int|
                0 <= k < s.len() && #[trigger] in_every(s[k], sets) ==> !later(s[k], d),
    decreases s.len(),
{
    let n = s.len() - 1;
    let x = s[n];
    let front = s.drop_last();
    if exists|k: int| 0 <= k < front.len() && #[trigger] in_every(front[k], sets) {
        lemma_latest_among(front, sets);
        let d = choose|d: Seq<char>|
            #![trigger in_every(d, sets)]
            in_every(d, sets) && front.contains(d) && forall|k: int|
                0 <= k < front.len() && #[trigger] in_every(front[k], sets) ==> !later(front[k], d);
        let kd = choose|k: int| 0 <= k < front.len() && front[k] == d;
        assert(s[kd] == d);
        if in_every(x, sets) && later(x, d) {
            assert forall|k: int| 0 <= k < s.len() && #[trigger] in_every(s[k], sets) implies !later(
                s[k],
                x,
            ) by {
                if k < n {
                    assert(front[k] == s[k]);
                    if later(s[k], x) {
                        lemma_later_transitive(s[k], x, d);
                    }
                } else {
                    lemma_later_asymmetric(x, x);
                }
            }
            assert(s.contains(x));
        } else {
            assert forall|k: int| 0 <= k < s.len() && #[trigger] in_every(s[k], sets) implies !later(
                s[k],
                d,
            ) by {
                if k < n {
                    assert(front[k] == s[k]);
                }
            }
        }
    } else {
        let k0 = choose|k: int| 0 <= k < s.len() && #[trigger] in_every(s[k], sets);
        if k0 < n {
            assert(front[k0] == s[k0]);
        }
        assert forall|k: int| 0 <= k < s.len() && #[trigger] in_every(s[k], sets) implies !later(s[k], x) by {
            if k < n {
                assert(front[k] == s[k]);
            } else {
                lemma_later_asymmetric(x, x);
            }
        }
        assert(s.contains(x));
    }
}

/// Components that share a date have a latest common date, and it is what
/// the resolution gives.
pub proof fn lemma_shared_date_resolves(sets: Seq<Seq<Seq<char>>>, d: Seq<char>)
    requires
        sets.len() > 0,
        in_every(d, sets),
    ensures
        resolution(sets) is Some,
        is_latest_common(resolution(sets)->0, sets),
{
    let s = sets[0];
    assert(s.contains(d));
    let k = choose|k: int| 0 <= k < s.len() && s[k] == d;
    assert(in_every(s[k], sets));
    lemma_latest_among(s, sets);
    let m = choose|m: Seq<char>|
        #![trigger in_every(m, sets)]
        in_every(m, sets) && s.contains(m) && forall|k: int|
            0 <= k < s.len() && #[trigger] in_every(s[k], sets) ==> !later(s[k], m);
    assert forall|t: Seq<char>| #[trigger] in_every(t, sets) implies !later(t, m) by {
        assert(sets[0].contains(t));
        let j = choose|j: int| 0 <= j < s.len() && s[j] == t;
        assert(in_every(s[j], sets));
    }
    lemma_resolution_is(m, sets);
}

/// A component with no available date leaves no common date.
pub proof fn lemma_empty_component_no_common(sets: Seq<Seq<Seq<char>>>, i: int)
    requires
        0 <= i < sets.len(),
        sets[i].len() == 0,
    ensures
        resolution(sets) is None,
{
    if resolution(sets) is Some {
        let d = choose|d: Seq<char>| is_latest_common(d, sets);
        assert(sets[i].contains(d));
    }
}

/// A single component resolves to the latest of its own dates, and to nothing
/// when it has none.
pub proof fn lemma_single_component(s: Seq<Seq<char>>)
    ensures
        resolution(seq![s]) is Some <==> s.len() > 0,
        resolution(seq![s]) matches Some(d) ==> s.contains(d) && forall|t: Seq<char>|
            s.contains(t) ==> !later(t, d),
{
    let sets = seq![s];
    assert forall|t: Seq<char>| in_every(t, sets) <==> s.contains(t) by {
        if s.contains(t) {
            assert forall|i: int| 0 <= i < sets.len() implies #[trigger] sets[i].contains(t) by {
                assert(sets[i] == s);
            }
        }
        if in_every(t, sets) {
            assert(sets[0].contains(t));
        }
    }
    if s.len() > 0 {
        assert(s.contains(s[0]));
        lemma_shared_date_resolves(sets, s[0]);
    } else {
        lemma_empty_component_no_common(sets, 0);
    }
    if resolution(sets) is Some {
        let d = resolution(sets)->0;
        lemma_resolution_chosen(sets);
        assert forall|t: Seq<char>| s.contains(t) implies !later(t, d) by {
            assert(in_every(t, sets));
        }
    }
}

/// What the resolution gives is the latest common date.
pub proof fn lemma_resolution_chosen(sets: Seq<Seq<Seq<char>>>)
    ensures
        resolution(sets) matches Some(d) ==> is_latest_common(d, sets),
{
}

/// Listing a component's dates more than once changes nothing: components
/// whose date lists are the same lists, each taken any number of times, have
/// the same resolution.
pub proof fn lemma_duplicates_keep_resolution(
    sets: Seq<Seq<Seq<char>>>,
    distinct: Seq<Seq<Seq<char>>>,
)
    requires
        sets.to_set() == distinct.to_set(),
    ensures
        resolution(sets) == resolution(distinct),
{
    assert forall|t: Seq<char>| in_every(t, sets) <==> in_every(t, distinct) by {
        if in_every(t, sets) {
            assert forall|i: int| 0 <= i < distinct.len() implies #[trigger] distinct[i].contains(t) by {
                assert(distinct.to_set().contains(distinct[i]));
                assert(sets.to_set().contains(distinct[i]));
                let j = choose|j: int| 0 <= j < sets.len() && sets[j] == distinct[i];
            }
        }
        if in_every(t, distinct) {
            assert forall|i: int| 0 <= i < sets.len() implies #[trigger] sets[i].contains(t) by {
                assert(sets.to_set().contains(sets[i]));
                assert(distinct.to_set().contains(sets[i]));
                let j = choose|j: int| 0 <= j < distinct.len() && distinct[j] == sets[i];
            }
        }
    }
    if sets.len() > 0 {
        assert(sets.to_set().contains(sets[0]));
        assert(distinct.len() > 0);
    }
    if distinct.len() > 0 {
        assert(distinct.to_set().contains(distinct[0]));
        assert(sets.len() > 0);
    }
    assert forall|d: Seq<char>| is_latest_common(d, sets) <==> is_latest_common(d, distinct) by {}
    if resolution(sets) is Some {
        let d = resolution(sets)->0;
        assert(is_latest_common(d, distinct));
        lemma_resolution_is(d, distinct);
    } else if resolution(distinct) is Some {
        let d = resolution(distinct)->0;
        assert(is_latest_common(d, sets));
    }
}

/// Why no date was resolved.
#[derive(Debug)]
pub enum ResolveError {
    /// No component was asked for.
    NoComponents,
    /// A component's calendar could not be had.
    Fetch(FetchError),
    /// The calendars share no available date.
    NoCommonDate,
}

/// The calendar addresses to fetch for `components` on `target`, one for
/// each component in order; an error, before anything is fetched, when no
/// component is given.
pub fn calendar_urls(components: &Vec<String>, target: &str) -> (r: Result<Vec<String>, ResolveError>)
    ensures
        components@.len() == 0 <==> r is Err,
        r matches Err(e) ==> e is NoComponents,
        r matches Ok(u) ==> u@.len() == components@.len() && forall|i: int|
            0 <= i < u@.len() ==> #[trigger] u@[i]@ == calendar_address(target@, components@[i]@),
{
    if components.len() == 0 {
        return Err(ResolveError::NoComponents);
    }
    let mut urls: Vec<String> = Vec::new();
    let mut i: usize = 0;
    while i < components.len()
        invariant
            0 <= i <= components@.len(),
            urls@.len() == i,
            forall|k: int| 0 <= k < i ==> #[trigger] urls@[k]@ == calendar_address(target@, components@[k]@),
        decreases components.len() - i,
    {
        let u = crate::calendar::calendar_url(target, components[i].as_str());
        urls.push(u);
        i = i + 1;
    }
    Ok(urls)
}

/// The fetch at position `i` is the first that failed.
pub open spec fn first_failure(f: Seq<Result<Vec<Date>, FetchError>>, i: int) -> bool {
    &&& 0 <= i < f.len()
    &&& f[i] is Err
    &&& forall|j: int| 0 <= j < i ==> #[trigger] f[j] is Ok
}

/// Every fetch succeeded.
pub open spec fn all_fetched(f: Seq<Result<Vec<Date>, FetchError>>) -> bool {
    forall|i: int| 0 <= i < f.len() ==> #[trigger] f[i] is Ok
}

/// The date lists that successful fetches gave, as text.
pub open spec fn fetched_sets(f: Seq<Result<Vec<Date>, FetchError>>) -> Seq<Seq<Seq<char>>> {
    f.map_values(|x: Result<Vec<Date>, FetchError>| date_views(x->Ok_0@))
}

/// The latest nightly date on which every component was available, from the
/// outcome of each component's fetch, in the order the components were given.
/// The first failed fetch, by position, is the error; the dates of the
/// first component are scanned and looked up in the others.
pub fn latest_common_nightly(fetched: Vec<Result<Vec<Date>, FetchError>>) -> (r: Result<Date, ResolveError>)
    ensures
        fetched@.len() == 0 ==> r matches Err(ResolveError::NoComponents),
        forall|i: int| #[trigger] first_failure(fetched@, i) ==> r == Err::<Date, ResolveError>(
            ResolveError::Fetch(fetched@[i]->Err_0),
        ),
        fetched@.len() > 0 && all_fetched(fetched@) ==> match r {
            Ok(d) => resolution(fetched_sets(fetched@)) == Some(d@),
            Err(e) => e is NoCommonDate && resolution(fetched_sets(fetched@)) is None,
        },
{
    let ghost orig = fetched@;
    if fetched.len() == 0 {
        return Err(ResolveError::NoComponents);
    }
    let mut rest = fetched;
    let mut sets: Vec<Vec<Date>> = Vec::new();
    while rest.len() > 0
        invariant
            orig == fetched@,
            orig.len() > 0,
            sets@.len() <= orig.len(),
            rest@ == orig.skip(sets@.len() as int),
            forall|j: int| 0 <= j < sets@.len() ==> #[trigger] orig[j] is Ok,
            forall|j: int|
                0 <= j < sets@.len() ==> #[trigger] set_views(sets@)[j] == date_views(orig[j]->Ok_0@),
        decreases rest@.len(),
    {
        let ghost k = sets@.len() as int;
        let x = rest.remove(0);
        assert(x == orig[k]);
        match x {
            Ok(v) => {
                let ghost old_sets = sets@;
                sets.push(v);
                assert forall|j: int| 0 <= j < k implies #[trigger] set_views(sets@)[j] == date_views(
                    orig[j]->Ok_0@,
                ) by {
                    assert(sets@[j] == old_sets[j]);
                    assert(set_views(old_sets)[j] == date_views(orig[j]->Ok_0@));
                }
                assert(rest@ =~= orig.skip(k + 1));
                assert(set_views(sets@)[k] == date_views(orig[k]->Ok_0@));
            },
            Err(e) => {
                assert(first_failure(orig, k));
                assert forall|i: int| #[trigger] first_failure(orig, i) implies i == k by {
                    if i < k {
                        assert(orig[i] is Ok);
                    }
                    if i > k {
                        assert(orig[k] is Ok);
                    }
                }
                return Err(ResolveError::Fetch(e));
            },
        }
    }
    assert(set_views(sets@) =~= fetched_sets(orig));
    assert forall|i: int| !#[trigger] first_failure(orig, i) by {
        if 0 <= i < orig.len() {
            assert(orig[i] is Ok);
        }
    }
    match latest_common_date(&sets) {
        Some(d) => Ok(d),
        None => Err(ResolveError::NoCommonDate),
    }
}

} // verus!
