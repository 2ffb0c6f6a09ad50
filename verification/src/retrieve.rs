//! Merging what the store returns for the questions of one query.
//!
//! Every question of a query is searched for on its own. The results are
//! merged into one list of candidates: a chunk that several searches found
//! is kept once, with its highest score; the list is ordered from the
//! highest score down and cut off at a maximum length.
use vstd::prelude::*;

verus! {

/// A chunk that a similarity search found.
#[derive(Debug, PartialEq, Eq)]
pub struct Hit {
    /// The identifier under which the chunk is stored.
    pub id: u128,
    /// The file that the chunk was cut from.
    pub path: String,
    pub content: String,
    /// The similarity score as a rank: a higher rank is a better match.
    pub rank: u32,
}

/// A hit with its texts as character sequences.
pub struct HitView {
    pub id: u128,
    pub path: Seq<char>,
    pub content: Seq<char>,
    pub rank: u32,
}

impl View for Hit {
    type V = HitView;

    open spec fn view(&self) -> HitView {
        HitView { id: self.id, path: self.path@, content: self.content@, rank: self.rank }
    }
}

/// The views of a list of hits, in order.
pub open spec fn hit_views(hits: Seq<Hit>) -> Seq<HitView> {
    hits.map_values(|h: Hit| h@)
}

/// The rank of a score that is given by the bits of a single precision
/// number: negative numbers rank below the others, and in the order of
/// their value.
pub open spec fn spec_score_rank(bits: u32) -> u32 {
    if bits & 0x8000_0000 != 0 {
        !bits
    } else {
        bits | 0x8000_0000
    }
}

/// Turns the bits of a single precision score into a rank.
#[verifier::when_used_as_spec(spec_score_rank)]
pub fn score_rank(bits: u32) -> (rank: u32)
    ensures
        rank == spec_score_rank(bits),
{
    if bits & 0x8000_0000 != 0 {
        !bits
    } else {
        bits | 0x8000_0000
    }
}

/// Ranks order scores as their bits say: among numbers without a sign the
/// larger bits rank higher, among numbers with a sign the larger bits rank
/// lower, and every number with a sign ranks below every number without.
pub proof fn law_rank_orders_scores(a: u32, b: u32)
    ensures
        a & 0x8000_0000 == 0 && b & 0x8000_0000 == 0 ==> (a <= b <==> score_rank(a) <= score_rank(
            b,
        )),
        a & 0x8000_0000 != 0 && b & 0x8000_0000 != 0 ==> (a <= b <==> score_rank(a) >= score_rank(
            b,
        )),
        a & 0x8000_0000 != 0 && b & 0x8000_0000 == 0 ==> score_rank(a) < score_rank(b),
        a != b ==> score_rank(a) != score_rank(b),
{
    assert(a & 0x8000_0000 == 0 && b & 0x8000_0000 == 0 ==> (a <= b <==> (a | 0x8000_0000) <= (b
        | 0x8000_0000))) by (bit_vector);
    assert(a & 0x8000_0000 != 0 && b & 0x8000_0000 != 0 ==> (a <= b <==> !a >= !b))
        by (bit_vector);
    assert(a & 0x8000_0000 != 0 && b & 0x8000_0000 == 0 ==> !a < (b | 0x8000_0000))
        by (bit_vector);
    assert(a & 0x8000_0000 != 0 && b & 0x8000_0000 == 0 ==> (!a) != (b | 0x8000_0000))
        by (bit_vector);
    assert(a & 0x8000_0000 == 0 && b & 0x8000_0000 != 0 ==> (a | 0x8000_0000) != !b)
        by (bit_vector);
    assert(a != b ==> !a != !b) by (bit_vector);
    assert(a != b && a & 0x8000_0000 == 0 && b & 0x8000_0000 == 0 ==> (a | 0x8000_0000) != (b
        | 0x8000_0000)) by (bit_vector);
}

/// The first index at or behind `from` of a hit with this identifier; the
/// length of the list if there is none.
pub open spec fn find_id(list: Seq<HitView>, id: u128, from: nat) -> nat
    decreases list.len() - from,
{
    if from >= list.len() {
        list.len()
    } else if list[from as int].id == id {
        from
    } else {
        find_id(list, id, from + 1)
    }
}

/// The first index at or behind `from` of a hit that ranks below `rank`;
/// the length of the list if there is none.
pub open spec fn find_below(list: Seq<HitView>, rank: u32, from: nat) -> nat
    decreases list.len() - from,
{
    if from >= list.len() {
        list.len()
    } else if list[from as int].rank < rank {
        from
    } else {
        find_below(list, rank, from + 1)
    }
}

/// A hit put into a list in front of the first hit that ranks below it.
pub open spec fn placed_by_rank(list: Seq<HitView>, hit: HitView) -> Seq<HitView> {
    list.insert(find_below(list, hit.rank, 0) as int, hit)
}

/// The candidates after one more hit was taken in. A hit for a chunk that
/// is not among them is put in by its rank. A hit for a chunk that is among
/// them replaces it if it ranks higher, and is dropped if it does not.
pub open spec fn taken_in(list: Seq<HitView>, hit: HitView) -> Seq<HitView> {
    let at = find_id(list, hit.id, 0) as int;
    if at >= list.len() {
        placed_by_rank(list, hit)
    } else if list[at].rank < hit.rank {
        placed_by_rank(list.remove(at), hit)
    } else {
        list
    }
}

/// The candidates after the first `n` hits of a result list were taken in.
pub open spec fn taken_in_all(list: Seq<HitView>, hits: Seq<HitView>, n: nat) -> Seq<HitView>
    decreases n,
{
    if n == 0 {
        list
    } else {
        taken_in(taken_in_all(list, hits, (n - 1) as nat), hits[n - 1])
    }
}

/// The views of a list of result lists.
pub open spec fn result_views(results: Seq<Vec<Hit>>) -> Seq<Seq<HitView>> {
    results.map_values(|r: Vec<Hit>| hit_views(r@))
}

/// The candidates after the first `n` result lists were taken in, one after
/// the other, each from its first hit to its last.
pub open spec fn merged_all(results: Seq<Seq<HitView>>, n: nat) -> Seq<HitView>
    decreases n,
{
    if n == 0 {
        Seq::empty()
    } else {
        taken_in_all(merged_all(results, (n - 1) as nat), results[n - 1], results[n - 1].len())
    }
}

/// The candidates of a query: the merged results, cut off behind the first `cap`.
pub open spec fn merged(results: Seq<Seq<HitView>>, cap: usize) -> Seq<HitView> {
    let all = merged_all(results, results.len());
    if all.len() <= cap {
        all
    } else {
        all.take(cap as int)
    }
}

/// A copy of a hit.
pub fn clone_hit(hit: &Hit) -> (copy: Hit)
    ensures
        copy@ == hit@,
{
    Hit { id: hit.id, path: hit.path.clone(), content: hit.content.clone(), rank: hit.rank }
}

/// Takes one hit into the candidates.
pub fn take_in(list: &mut Vec<Hit>, hit: Hit)
    ensures
        hit_views(final(list)@) == taken_in(hit_views(old(list)@), hit@),
{
    let ghost before = hit_views(list@);
    let mut at: usize = 0;
    while at < list.len() && list[at].id != hit.id
        invariant
            at <= list.len(),
            before == hit_views(list@),
            find_id(before, hit.id, 0) == find_id(before, hit.id, at as nat),
        decreases list.len() - at,
    {
        at += 1;
    }
    if at < list.len() {
        if list[at].rank < hit.rank {
            list.remove(at);
            assert(hit_views(list@) =~= before.remove(at as int));
        } else {
            return ;
        }
    }
    let ghost kept = hit_views(list@);
    let mut to: usize = 0;
    while to < list.len() && list[to].rank >= hit.rank
        invariant
            to <= list.len(),
            kept == hit_views(list@),
            find_below(kept, hit.rank, 0) == find_below(kept, hit.rank, to as nat),
        decreases list.len() - to,
    {
        to += 1;
    }
    list.insert(to, hit);
    assert(hit_views(list@) =~= kept.insert(to as int, hit@));
}

/// Merges the results of the searches of one query into its candidates: no
/// chunk twice, the best first, at most `cap` of them.
pub fn merge_hits(results: &Vec<Vec<Hit>>, cap: usize) -> (out: Vec<Hit>)
    ensures
        hit_views(out@) == merged(result_views(results@), cap),
{
    let ghost all = result_views(results@);
    let mut list: Vec<Hit> = Vec::new();
    let mut r: usize = 0;
    assert(hit_views(list@) =~= merged_all(all, 0));
    while r < results.len()
        invariant
            r <= results.len(),
            all == result_views(results@),
            hit_views(list@) == merged_all(all, r as nat),
        decreases results.len() - r,
    {
        let hits = &results[r];
        let mut i: usize = 0;
        while i < hits.len()
            invariant
                i <= hits.len(),
                r < results.len(),
                all == result_views(results@),
                hits == &results[r as int],
                hit_views(list@) == taken_in_all(merged_all(all, r as nat), all[r as int], i as nat),
            decreases hits.len() - i,
        {
            let hit = clone_hit(&hits[i]);
            assert(all[r as int][i as int] == hit@);
            take_in(&mut list, hit);
            i += 1;
        }
        r += 1;
    }
    if list.len() > cap {
        list.truncate(cap);
        assert(hit_views(list@) =~= merged_all(all, results.len() as nat).take(cap as int));
    }
    list
}

/// Whether a list is ordered from the highest rank down and holds no chunk twice.
pub open spec fn tidy(list: Seq<HitView>) -> bool {
    &&& forall|i: int, j: int|
        #![trigger list[i], list[j]]
        0 <= i < j < list.len() ==> list[i].rank >= list[j].rank
    &&& forall|i: int, j: int|
        #![trigger list[i], list[j]]
        0 <= i < j < list.len() ==> list[i].id != list[j].id
}

/// Whether a list holds the chunk of a hit with a rank that is not below the hit's.
pub open spec fn covers(list: Seq<HitView>, hit: HitView) -> bool {
    exists|i: int| 0 <= i < list.len() && #[trigger] list[i].id == hit.id && list[i].rank >= hit.rank
}

/// Whether a hit is in a list.
pub open spec fn holds(list: Seq<HitView>, hit: HitView) -> bool {
    exists|i: int| 0 <= i < list.len() && #[trigger] list[i] == hit
}

/// Whether a hit is in one of the first `n` result lists.
pub open spec fn found(results: Seq<Seq<HitView>>, n: nat, hit: HitView) -> bool {
    exists|r: int| 0 <= r < n && r < results.len() && holds(#[trigger] results[r], hit)
}

/// Whether every hit of `list` is in `first` or in `second`.
pub open spec fn drawn_from(list: Seq<HitView>, first: Seq<HitView>, second: Seq<HitView>) -> bool {
    forall|i: int|
        0 <= i < list.len() ==> holds(first, #[trigger] list[i]) || holds(second, list[i])
}

/// Whether every hit of `list` is in one of the first `n` result lists.
pub open spec fn all_found(list: Seq<HitView>, results: Seq<Seq<HitView>>, n: nat) -> bool {
    forall|i: int| 0 <= i < list.len() ==> found(results, n, #[trigger] list[i])
}

/// Whether no hit of `list` for the chunk of `hit` ranks below `hit`.
pub open spec fn keeps_best(list: Seq<HitView>, hit: HitView) -> bool {
    forall|i: int|
        0 <= i < list.len() && (#[trigger] list[i]).id == hit.id ==> list[i].rank >= hit.rank
}

/// Whether no hit of `list` is for the chunk with this identifier.
pub open spec fn lacks(list: Seq<HitView>, id: u128) -> bool {
    forall|i: int| 0 <= i < list.len() ==> (#[trigger] list[i]).id != id
}

/// Whether no hit of `list` ranks below `rank`.
pub open spec fn ranks_from(list: Seq<HitView>, rank: u32) -> bool {
    forall|i: int| 0 <= i < list.len() ==> (#[trigger] list[i]).rank >= rank
}

proof fn lemma_holds(list: Seq<HitView>, i: int)
    requires
        0 <= i < list.len(),
    ensures
        holds(list, list[i]),
{
    let hit = list[i];
    assert(list[i] == hit);
}

proof fn lemma_find_id(list: Seq<HitView>, id: u128, from: nat)
    requires
        from <= list.len(),
    ensures
        from <= find_id(list, id, from) <= list.len(),
        forall|j: int| from <= j < find_id(list, id, from) ==> (#[trigger] list[j]).id != id,
        find_id(list, id, from) < list.len() ==> list[find_id(list, id, from) as int].id == id,
    decreases list.len() - from,
{
    if from < list.len() && list[from as int].id != id {
        lemma_find_id(list, id, from + 1);
    }
}

proof fn lemma_find_below(list: Seq<HitView>, rank: u32, from: nat)
    requires
        from <= list.len(),
    ensures
        from <= find_below(list, rank, from) <= list.len(),
        forall|j: int| from <= j < find_below(list, rank, from) ==> (#[trigger] list[j]).rank >= rank,
        find_below(list, rank, from) < list.len() ==> list[find_below(list, rank, from) as int].rank
            < rank,
    decreases list.len() - from,
{
    if from < list.len() && list[from as int].rank >= rank {
        lemma_find_below(list, rank, from + 1);
    }
}

/// Putting a hit for a new chunk into a tidy list by its rank keeps the list tidy.
proof fn lemma_placed_by_rank(list: Seq<HitView>, hit: HitView)
    requires
        tidy(list),
        lacks(list, hit.id),
    ensures
        tidy(placed_by_rank(list, hit)),
        covers(placed_by_rank(list, hit), hit),
        forall|x: HitView| covers(list, x) ==> covers(placed_by_rank(list, hit), x),
        drawn_from(placed_by_rank(list, hit), list, seq![hit]),
{
    lemma_find_below(list, hit.rank, 0);
    let at = find_below(list, hit.rank, 0) as int;
    let now = placed_by_rank(list, hit);
    assert(now[at] == hit);
    assert(now[at].id == hit.id);
    assert forall|i: int, j: int| 0 <= i < j < now.len() implies now[i].rank >= now[j].rank
        && now[i].id != now[j].id by {
        let a = if i < at { i } else { i - 1 };
        let b = if j < at { j } else { j - 1 };
        if i != at && j != at {
            assert(now[i] == list[a] && now[j] == list[b]);
        } else if i == at {
            assert(now[j] == list[b]);
            if at < list.len() {
                assert(list[at].rank < hit.rank);
            }
        } else {
            assert(now[i] == list[a]);
        }
    }
    assert forall|x: HitView| covers(list, x) implies covers(now, x) by {
        let i = choose|i: int|
            0 <= i < list.len() && #[trigger] list[i].id == x.id && list[i].rank >= x.rank;
        let to = if i < at { i } else { i + 1 };
        assert(now[to] == list[i]);
        assert(now[to].id == x.id);
    }
    assert forall|i: int| 0 <= i < now.len() implies holds(list, #[trigger] now[i]) || holds(
        seq![hit],
        now[i],
    ) by {
        if i != at {
            let a = if i < at { i } else { i - 1 };
            assert(list[a] == now[i]);
            lemma_holds(list, a);
        } else {
            lemma_holds(seq![hit], 0);
        }
    }
}

/// Taking a hit into a tidy list keeps it tidy; the list then covers the
/// hit and all it covered before, and holds nothing but the hit and what it
/// held before.
proof fn lemma_taken_in(list: Seq<HitView>, hit: HitView)
    requires
        tidy(list),
    ensures
        tidy(taken_in(list, hit)),
        covers(taken_in(list, hit), hit),
        forall|x: HitView| covers(list, x) ==> covers(taken_in(list, hit), x),
        drawn_from(taken_in(list, hit), list, seq![hit]),
{
    lemma_find_id(list, hit.id, 0);
    let at = find_id(list, hit.id, 0) as int;
    let now = taken_in(list, hit);
    if at >= list.len() {
        lemma_placed_by_rank(list, hit);
    } else if list[at].rank < hit.rank {
        let rest = list.remove(at);
        assert(lacks(rest, hit.id)) by {
            assert forall|i: int| 0 <= i < rest.len() implies (#[trigger] rest[i]).id != hit.id by {
                let a = if i < at { i } else { i + 1 };
                assert(rest[i] == list[a]);
                if a < at {
                    assert(list[a].id != list[at].id);
                } else {
                    assert(list[at].id != list[a].id);
                }
            }
        }
        assert(tidy(rest)) by {
            assert forall|i: int, j: int| 0 <= i < j < rest.len() implies rest[i].rank
                >= rest[j].rank && rest[i].id != rest[j].id by {
                let a = if i < at { i } else { i + 1 };
                let b = if j < at { j } else { j + 1 };
                assert(rest[i] == list[a] && rest[j] == list[b]);
            }
        }
        lemma_placed_by_rank(rest, hit);
        assert forall|x: HitView| covers(list, x) implies covers(now, x) by {
            let i = choose|i: int|
                0 <= i < list.len() && #[trigger] list[i].id == x.id && list[i].rank >= x.rank;
            if i == at {
                let h = choose|h: int|
                    0 <= h < now.len() && #[trigger] now[h].id == hit.id && now[h].rank
                        >= hit.rank;
                assert(now[h].id == x.id);
            } else {
                let a = if i < at { i } else { i - 1 };
                assert(rest[a] == list[i]);
                assert(rest[a].id == x.id);
                assert(covers(rest, x));
            }
        }
        assert forall|i: int| 0 <= i < now.len() implies holds(list, #[trigger] now[i]) || holds(
            seq![hit],
            now[i],
        ) by {
            if holds(rest, now[i]) {
                let j = choose|j: int| 0 <= j < rest.len() && #[trigger] rest[j] == now[i];
                let a = if j < at { j } else { j + 1 };
                assert(list[a] == now[i]);
                lemma_holds(list, a);
            }
        }
    } else {
        assert(list[at].id == hit.id);
        assert forall|i: int| 0 <= i < now.len() implies holds(list, #[trigger] now[i]) || holds(
            seq![hit],
            now[i],
        ) by {
            lemma_holds(list, i);
        }
    }
}

proof fn lemma_taken_in_all(list: Seq<HitView>, hits: Seq<HitView>, n: nat)
    requires
        tidy(list),
        n <= hits.len(),
    ensures
        tidy(taken_in_all(list, hits, n)),
        forall|x: HitView| covers(list, x) ==> covers(taken_in_all(list, hits, n), x),
        forall|x: HitView| holds(hits.take(n as int), x) ==> covers(taken_in_all(list, hits, n), x),
        drawn_from(taken_in_all(list, hits, n), list, hits.take(n as int)),
    decreases n,
{
    let now = taken_in_all(list, hits, n);
    if n > 0 {
        let before = taken_in_all(list, hits, (n - 1) as nat);
        let fewer = hits.take(n - 1);
        let taken = hits.take(n as int);
        lemma_taken_in_all(list, hits, (n - 1) as nat);
        lemma_taken_in(before, hits[n - 1]);
        assert forall|x: HitView| holds(taken, x) implies covers(now, x) by {
            let k = choose|k: int| 0 <= k < taken.len() && #[trigger] taken[k] == x;
            if k < n - 1 {
                assert(fewer[k] == x);
                assert(holds(fewer, x));
            }
        }
        assert forall|i: int| 0 <= i < now.len() implies holds(list, #[trigger] now[i]) || holds(
            taken,
            now[i],
        ) by {
            if holds(seq![hits[n - 1]], now[i]) {
                let k = choose|k: int| 0 <= k < 1 && #[trigger] seq![hits[n - 1]][k] == now[i];
                assert(taken[n - 1] == now[i]);
                lemma_holds(taken, n - 1);
            } else {
                let j = choose|j: int| 0 <= j < before.len() && #[trigger] before[j] == now[i];
                if holds(fewer, before[j]) {
                    let k = choose|k: int| 0 <= k < fewer.len() && #[trigger] fewer[k] == before[j];
                    assert(taken[k] == now[i]);
                    lemma_holds(taken, k);
                }
            }
        }
    } else {
        assert forall|i: int| 0 <= i < now.len() implies holds(list, #[trigger] now[i]) || holds(
            hits.take(0),
            now[i],
        ) by {
            lemma_holds(list, i);
        }
    }
}

proof fn lemma_merged_all(results: Seq<Seq<HitView>>, n: nat)
    requires
        n <= results.len(),
    ensures
        tidy(merged_all(results, n)),
        forall|x: HitView| found(results, n, x) ==> covers(merged_all(results, n), x),
        all_found(merged_all(results, n), results, n),
    decreases n,
{
    if n > 0 {
        let before = merged_all(results, (n - 1) as nat);
        let hits = results[n - 1];
        let now = merged_all(results, n);
        lemma_merged_all(results, (n - 1) as nat);
        lemma_taken_in_all(before, hits, hits.len());
        assert(hits.take(hits.len() as int) =~= hits);
        assert forall|x: HitView| found(results, n, x) implies covers(now, x) by {
            let r = choose|r: int| 0 <= r < n && r < results.len() && holds(#[trigger] results[r], x);
            if r < n - 1 {
                assert(found(results, (n - 1) as nat, x));
            }
        }
        assert forall|i: int| 0 <= i < now.len() implies found(results, n, #[trigger] now[i]) by {
            if holds(hits, now[i]) {
                assert(holds(results[n - 1], now[i]));
            } else {
                let j = choose|j: int| 0 <= j < before.len() && #[trigger] before[j] == now[i];
                assert(found(results, (n - 1) as nat, before[j]));
                let r = choose|r: int|
                    0 <= r < n - 1 && r < results.len() && holds(#[trigger] results[r], before[j]);
                assert(holds(results[r], now[i]));
            }
        }
    }
}

/// The candidates of a query are at most `cap`, ordered from the highest
/// rank down, and no chunk is among them twice. Each of them is a hit of
/// one of the searches.
pub proof fn law_candidates_are_tidy(results: Seq<Seq<HitView>>, cap: usize)
    ensures
        merged(results, cap).len() <= cap,
        tidy(merged(results, cap)),
        all_found(merged(results, cap), results, results.len()),
{
    let all = merged_all(results, results.len());
    let out = merged(results, cap);
    lemma_merged_all(results, results.len());
    assert forall|i: int| 0 <= i < out.len() implies found(results, results.len(), #[trigger] out[i]) by {
        assert(out[i] == all[i]);
    }
    assert forall|i: int, j: int| 0 <= i < j < out.len() implies out[i].rank >= out[j].rank
        && out[i].id != out[j].id by {
        assert(out[i] == all[i] && out[j] == all[j]);
    }
}

/// The highest score is kept: a chunk that is among the candidates has a
/// rank that is not below that of any hit for it. A chunk that was found
/// but is not among the candidates was cut off: the candidates are `cap`
/// then, and none of them ranks below it.
pub proof fn law_candidates_are_best(results: Seq<Seq<HitView>>, cap: usize, hit: HitView)
    requires
        found(results, results.len(), hit),
    ensures
        keeps_best(merged(results, cap), hit),
        lacks(merged(results, cap), hit.id) ==> merged(results, cap).len() == cap && ranks_from(
            merged(results, cap),
            hit.rank,
        ),
{
    let all = merged_all(results, results.len());
    let out = merged(results, cap);
    lemma_merged_all(results, results.len());
    let at = choose|at: int|
        0 <= at < all.len() && #[trigger] all[at].id == hit.id && all[at].rank >= hit.rank;
    assert forall|i: int| 0 <= i < out.len() && (#[trigger] out[i]).id == hit.id implies out[i].rank
        >= hit.rank by {
        assert(out[i] == all[i]);
        if i < at {
            assert(all[i].id != all[at].id);
        } else if at < i {
            assert(all[at].id != all[i].id);
        }
    }
    if lacks(out, hit.id) {
        if at < out.len() {
            assert(out[at].id == hit.id);
        }
        assert forall|i: int| 0 <= i < out.len() implies (#[trigger] out[i]).rank >= hit.rank by {
            assert(out[i] == all[i]);
            assert(all[i].rank >= all[at].rank);
        }
    }
}

/// A chunk that a search found is among the candidates, unless the
/// candidates are cut off at `cap`: where they are fewer, one of them is a
/// hit for that chunk, and it ranks no lower than the hit that was found.
pub proof fn law_found_chunk_is_a_candidate(results: Seq<Seq<HitView>>, cap: usize, hit: HitView)
    requires
        found(results, results.len(), hit),
        merged(results, cap).len() < cap,
    ensures
        covers(merged(results, cap), hit),
{
    law_candidates_are_best(results, cap, hit);
    let out = merged(results, cap);
    assert(!lacks(out, hit.id));
    let i = choose|i: int| 0 <= i < out.len() && (#[trigger] out[i]).id == hit.id;
    assert(out[i].id == hit.id && out[i].rank >= hit.rank);
}

} // verus!
