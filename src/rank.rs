//! Ranking of the candidates that the matcher accepted.
//!
//! The matcher itself is a black box: for every candidate it yields either
//! nothing or a score with the matched character offsets. Ranking keeps the
//! accepted candidates and orders them by descending score; equal scores keep
//! the order in which the source produced them, so a run is reproducible.

use rayon::slice::ParallelSliceMut;
use vstd::prelude::*;
use vstd::relations::*;

verus! {

/// One candidate line, with the text that is matched against.
pub struct SourceItem {
    pub raw: String,
}

impl SourceItem {
    pub fn new(raw: String) -> (r: SourceItem)
        ensures
            r.raw@ == raw@,
    {
        SourceItem { raw }
    }
}

/// Why a source stopped producing candidates.
#[derive(Clone, Copy, Debug, PartialEq, Eq, Structural)]
pub enum SourceError {
    SpawnFailed,
    ReadError,
}

/// A ranked candidate: the item, its score and the matched offsets.
pub type FilterResult = (SourceItem, i64, Vec<usize>);

/// What the matcher returned for one candidate.
pub type MatchResult = Option<(i64, Vec<usize>)>;

/// Sort key of a score: a smaller key means a higher score.
pub open spec fn rank_key(score: i64) -> u64 {
    (i64::MAX - score) as u64
}

/// Lexicographic order of `(key, position)` pairs, as std orders tuples.
pub open spec fn key_leq(a: (u64, usize), b: (u64, usize)) -> bool {
    a.0 < b.0 || (a.0 == b.0 && a.1 <= b.1)
}

/// `key_leq` as a relation.
pub open spec fn key_order() -> spec_fn((u64, usize), (u64, usize)) -> bool {
    |a: (u64, usize), b: (u64, usize)| key_leq(a, b)
}

/// Keys of the accepted candidates among the first `n`, in source order.
pub open spec fn match_keys(matched: Seq<MatchResult>, n: int) -> Seq<(u64, usize)>
    decreases n,
{
    if n <= 0 {
        Seq::empty()
    } else {
        let prev = match_keys(matched, n - 1);
        match matched[n - 1] {
            Some(m) => prev.push((rank_key(m.0), (n - 1) as usize)),
            None => prev,
        }
    }
}

/// Keys of all accepted candidates, best first.
pub open spec fn ranked_keys(matched: Seq<MatchResult>) -> Seq<(u64, usize)> {
    match_keys(matched, matched.len() as int).sort_by(key_order())
}

/// The plain value of a ranked candidate: text, score and offsets.
pub open spec fn result_view(r: FilterResult) -> (Seq<char>, i64, Seq<usize>) {
    (r.0.raw@, r.1, r.2@)
}

/// The entry that candidate `i` contributes to a ranking.
pub open spec fn entry_view(items: Seq<SourceItem>, matched: Seq<MatchResult>, i: int) -> (
    Seq<char>,
    i64,
    Seq<usize>,
) {
    (items[i].raw@, matched[i]->Some_0.0, matched[i]->Some_0.1@)
}

/// The ranking of `items` under the matcher results `matched`.
pub open spec fn ranked_view(items: Seq<SourceItem>, matched: Seq<MatchResult>) -> Seq<
    (Seq<char>, i64, Seq<usize>),
> {
    ranked_keys(matched).map_values(|k: (u64, usize)| entry_view(items, matched, k.1 as int))
}

pub open spec fn results_view(r: Seq<FilterResult>) -> Seq<(Seq<char>, i64, Seq<usize>)> {
    r.map_values(|x: FilterResult| result_view(x))
}

proof fn lemma_key_leq_total()
    ensures
        total_ordering(key_order()),
{
}

/// Every key of `match_keys` belongs to an accepted candidate and carries
/// that candidate's score.
proof fn lemma_match_keys(matched: Seq<MatchResult>, n: int)
    requires
        0 <= n <= matched.len(),
        matched.len() <= usize::MAX,
    ensures
        forall|k: (u64, usize)|
            #[trigger] match_keys(matched, n).contains(k) ==> {
                &&& (k.1 as int) < n
                &&& matched[k.1 as int] is Some
                &&& k.0 == rank_key(matched[k.1 as int]->Some_0.0)
            },
    decreases n,
{
    if n > 0 {
        lemma_match_keys(matched, n - 1);
        let prev = match_keys(matched, n - 1);
        assert forall|k: (u64, usize)| #[trigger] match_keys(matched, n).contains(k) implies {
            &&& (k.1 as int) < n
            &&& matched[k.1 as int] is Some
            &&& k.0 == rank_key(matched[k.1 as int]->Some_0.0)
        } by {
            if matched[n - 1] is Some {
                let m = matched[n - 1]->Some_0;
                let last = (rank_key(m.0), (n - 1) as usize);
                assert(match_keys(matched, n) == prev.push(last));
                if k != last {
                    let j = choose|j: int|
                        0 <= j < match_keys(matched, n).len() && match_keys(matched, n)[j] == k;
                    assert(j < prev.len());
                    assert(prev[j] == k);
                    assert(prev.contains(k));
                }
            } else {
                assert(match_keys(matched, n) == prev);
            }
        }
    }
}

/// The ranked keys are sorted and each belongs to an accepted candidate.
proof fn lemma_ranked_keys(matched: Seq<MatchResult>)
    requires
        matched.len() <= usize::MAX,
    ensures
        sorted_by(ranked_keys(matched), key_order()),
        forall|j: int|
            0 <= j < ranked_keys(matched).len() ==> {
                let k = #[trigger] ranked_keys(matched)[j];
                &&& (k.1 as int) < matched.len()
                &&& matched[k.1 as int] is Some
                &&& k.0 == rank_key(matched[k.1 as int]->Some_0.0)
            },
{
    let ghost leq = key_order();
    let keys = match_keys(matched, matched.len() as int);
    lemma_key_leq_total();
    keys.lemma_sort_by_ensures(leq);
    lemma_match_keys(matched, matched.len() as int);
    assert forall|j: int| 0 <= j < ranked_keys(matched).len() implies {
        let k = #[trigger] ranked_keys(matched)[j];
        &&& (k.1 as int) < matched.len()
        &&& matched[k.1 as int] is Some
        &&& k.0 == rank_key(matched[k.1 as int]->Some_0.0)
    } by {
        let k = ranked_keys(matched)[j];
        assert(ranked_keys(matched).contains(k));
        broadcast use vstd::seq_lib::group_to_multiset_ensures;
        assert(keys.contains(k));
    }
}

/// A ranking never puts a candidate above one with a higher score: scores
/// are non-increasing along the result.
pub proof fn lemma_ranking_is_ordered(items: Seq<SourceItem>, matched: Seq<MatchResult>)
    requires
        items.len() == matched.len(),
        matched.len() <= usize::MAX,
    ensures
        forall|i: int, j: int|
            0 <= i < j < ranked_view(items, matched).len() ==> #[trigger] ranked_view(
                items,
                matched,
            )[i].1 >= #[trigger] ranked_view(items, matched)[j].1,
{
    lemma_ranked_keys(matched);
    let keys = ranked_keys(matched);
    assert forall|i: int, j: int|
        0 <= i < j < ranked_view(items, matched).len() implies #[trigger] ranked_view(
            items,
            matched,
        )[i].1 >= #[trigger] ranked_view(items, matched)[j].1 by {
        assert(key_order()(keys[i], keys[j]));
        let ki = keys[i];
        let kj = keys[j];
        assert(ki.0 == rank_key(matched[ki.1 as int]->Some_0.0));
        assert(kj.0 == rank_key(matched[kj.1 as int]->Some_0.0));
    }
}

/// `e` is the entry of some candidate that the matcher accepted.
pub open spec fn is_accepted_entry(
    items: Seq<SourceItem>,
    matched: Seq<MatchResult>,
    e: (Seq<char>, i64, Seq<usize>),
) -> bool {
    exists|i: int|
        {
            &&& 0 <= i < items.len()
            &&& matched[i] is Some
            &&& e == #[trigger] entry_view(items, matched, i)
        }
}

/// A ranking holds only candidates of the input that the matcher accepted,
/// each with the score and offsets that the matcher gave it.
pub proof fn lemma_ranking_is_subset(items: Seq<SourceItem>, matched: Seq<MatchResult>)
    requires
        items.len() == matched.len(),
        matched.len() <= usize::MAX,
    ensures
        forall|j: int|
            0 <= j < ranked_view(items, matched).len() ==> is_accepted_entry(
                items,
                matched,
                #[trigger] ranked_view(items, matched)[j],
            ),
{
    lemma_ranked_keys(matched);
    assert forall|j: int| 0 <= j < ranked_view(items, matched).len() implies is_accepted_entry(
        items,
        matched,
        #[trigger] ranked_view(items, matched)[j],
    ) by {
        let k = ranked_keys(matched)[j];
        assert(matched[k.1 as int] is Some);
        assert(ranked_view(items, matched)[j] == entry_view(items, matched, k.1 as int));
    }
}

/// The position in the input of each entry of a ranking.
pub open spec fn ranking_sources(matched: Seq<MatchResult>) -> Seq<int> {
    ranked_keys(matched).map_values(|k: (u64, usize)| k.1 as int)
}

/// No two keys of `match_keys` come from the same candidate.
proof fn lemma_match_keys_distinct(matched: Seq<MatchResult>, n: int)
    requires
        0 <= n <= matched.len(),
        matched.len() <= usize::MAX,
    ensures
        match_keys(matched, n).no_duplicates(),
    decreases n,
{
    if n > 0 {
        lemma_match_keys_distinct(matched, n - 1);
        lemma_match_keys(matched, n - 1);
        let prev = match_keys(matched, n - 1);
        if matched[n - 1] is Some {
            let last = (rank_key(matched[n - 1]->Some_0.0), (n - 1) as usize);
            assert forall|j: int| 0 <= j < prev.len() implies prev[j] != last by {
                assert(prev.contains(prev[j]));
            }
        }
    }
}

/// A ranking takes each of its entries from a different input candidate:
/// nothing is duplicated, and nothing is made up.
pub proof fn lemma_ranking_has_no_duplicates(items: Seq<SourceItem>, matched: Seq<MatchResult>)
    requires
        items.len() == matched.len(),
        matched.len() <= usize::MAX,
    ensures
        ranking_sources(matched).len() == ranked_view(items, matched).len(),
        forall|j: int|
            0 <= j < ranked_view(items, matched).len() ==> {
                let i = #[trigger] ranking_sources(matched)[j];
                &&& 0 <= i < items.len()
                &&& matched[i] is Some
                &&& ranked_view(items, matched)[j] == entry_view(items, matched, i)
            },
        forall|j1: int, j2: int|
            0 <= j1 < ranking_sources(matched).len() && 0 <= j2 < ranking_sources(matched).len()
                && j1 != j2 ==> #[trigger] ranking_sources(matched)[j1]
                != #[trigger] ranking_sources(matched)[j2],
{
    let keys = match_keys(matched, matched.len() as int);
    let ranked = ranked_keys(matched);
    lemma_ranked_keys(matched);
    lemma_key_leq_total();
    keys.lemma_sort_by_ensures(key_order());
    lemma_match_keys_distinct(matched, matched.len() as int);
    keys.lemma_multiset_has_no_duplicates();
    ranked.lemma_multiset_has_no_duplicates_conv();
    assert forall|j1: int, j2: int|
        0 <= j1 < ranking_sources(matched).len() && 0 <= j2 < ranking_sources(matched).len() && j1
            != j2 implies #[trigger] ranking_sources(matched)[j1]
        != #[trigger] ranking_sources(matched)[j2] by {
        if ranked[j1].1 == ranked[j2].1 {
            assert(ranked[j1] == ranked[j2]);
        }
    }
}

/// Two runs on the same candidates and matcher results give the same
/// ranking, in the same order.
pub proof fn lemma_ranking_is_deterministic(
    items: Seq<SourceItem>,
    matched: Seq<MatchResult>,
    first: Seq<FilterResult>,
    second: Seq<FilterResult>,
)
    requires
        results_view(first) == ranked_view(items, matched),
        results_view(second) == ranked_view(items, matched),
    ensures
        results_view(first) == results_view(second),
{
}

/// Relies on rayon's `ParallelSliceMut::par_sort_unstable`: it sorts the
/// slice ascending by `Ord`, which std defines on tuples lexicographically,
/// and keeps the elements.
#[verifier::external_body]
fn par_sort_keys(keys: &mut Vec<(u64, usize)>)
    ensures
        sorted_by(final(keys)@, key_order()),
        final(keys)@.to_multiset() == old(keys)@.to_multiset(),
{
    keys.par_sort_unstable();
}

fn score_key(score: i64) -> (r: u64)
    ensures
        r == rank_key(score),
{
    (i64::MAX as i128 - score as i128) as u64
}

/// Ranks the candidates that the matcher accepted: best score first, and
/// among equal scores in source order. `matched[i]` is what the matcher
/// returned for `items[i]`.
pub fn rank(items: &Vec<SourceItem>, matched: &Vec<MatchResult>) -> (r: Vec<FilterResult>)
    requires
        items.len() == matched.len(),
    ensures
        results_view(r@) == ranked_view(items@, matched@),
{
    let ghost leq = key_order();
    let mut keys: Vec<(u64, usize)> = Vec::new();
    let mut i: usize = 0;
    while i < matched.len()
        invariant
            i <= matched.len(),
            keys@ == match_keys(matched@, i as int),
        decreases matched.len() - i,
    {
        match &matched[i] {
            Some(m) => {
                keys.push((score_key(m.0), i));
            },
            None => {},
        }
        i += 1;
    }
    let ghost unsorted = keys@;
    par_sort_keys(&mut keys);
    proof {
        lemma_key_leq_total();
        unsorted.lemma_sort_by_ensures(leq);
        vstd::seq_lib::lemma_sorted_unique(keys@, unsorted.sort_by(leq), leq);
        assert(keys@ == ranked_keys(matched@));
        lemma_ranked_keys(matched@);
    }
    let mut out: Vec<FilterResult> = Vec::new();
    let mut k: usize = 0;
    while k < keys.len()
        invariant
            k <= keys.len(),
            items.len() == matched.len(),
            keys@ == ranked_keys(matched@),
            forall|j: int|
                0 <= j < keys@.len() ==> {
                    let key = #[trigger] keys@[j];
                    &&& (key.1 as int) < matched.len()
                    &&& matched@[key.1 as int] is Some
                },
            results_view(out@) == ranked_view(items@, matched@).take(k as int),
        decreases keys.len() - k,
    {
        let idx = keys[k].1;
        assert(keys@[k as int].1 == idx);
        let ghost before = out@;
        match &matched[idx] {
            Some(m) => {
                let indices = m.1.clone();
                assert(indices@ =~= m.1@);
                let raw = items[idx].raw.clone();
                let entry: FilterResult = (SourceItem { raw }, m.0, indices);
                assert(result_view(entry) == entry_view(items@, matched@, idx as int));
                out.push(entry);
            },
            None => {},
        }
        assert(ranked_view(items@, matched@)[k as int] == entry_view(items@, matched@, idx as int));
        assert(results_view(out@) =~= results_view(before).push(entry_view(items@, matched@, idx as int)));
        k += 1;
        assert(results_view(out@) =~= ranked_view(items@, matched@).take(k as int));
    }
    assert(ranked_view(items@, matched@).take(k as int) =~= ranked_view(items@, matched@));
    out
}

/// Ranks the candidates of a source. A source that failed fails the whole
/// run, and nothing partial is returned.
pub fn sync_run(source: &Result<Vec<SourceItem>, SourceError>, matched: &Vec<MatchResult>) -> (r:
    Result<Vec<FilterResult>, SourceError>)
    requires
        source is Ok ==> source->Ok_0.len() == matched.len(),
    ensures
        match source {
            Ok(items) => r is Ok && results_view(r->Ok_0@) == ranked_view(items@, matched@),
            Err(e) => r == Err::<Vec<FilterResult>, SourceError>(*e),
        },
{
    match source {
        Ok(items) => Ok(rank(items, matched)),
        Err(e) => Err(*e),
    }
}

} // verus!
