//! Resolving overlapping matches.
use vstd::prelude::*;

use vstd::multiset::Multiset;

use crate::types::{faithful, views, within, MatchView, PiiMatch, SettingsView};

verus! {

broadcast use {vstd::seq_lib::group_to_multiset_ensures, vstd::multiset::group_multiset_axioms};

/// The two matches share at least one character position.
pub open spec fn overlaps(a: MatchView, b: MatchView) -> bool {
    a.start < b.end && b.start < a.end
}

/// Number of characters a match covers (`PiiMatch::len`).
pub open spec fn match_len(a: MatchView) -> int {
    if a.end >= a.start {
        a.end - a.start
    } else {
        0
    }
}

/// `a` is considered no later than `b` when overlaps are resolved: higher priority
/// first, then the longer match, then the earlier start, then the earlier detector.
pub open spec fn ranks_before(a: MatchView, b: MatchView) -> bool {
    if a.priority != b.priority {
        a.priority > b.priority
    } else if match_len(a) != match_len(b) {
        match_len(a) > match_len(b)
    } else if a.start != b.start {
        a.start < b.start
    } else {
        a.order <= b.order
    }
}

/// `a` comes no later than `b` in text order (start, then end).
pub open spec fn position_le(a: MatchView, b: MatchView) -> bool {
    a.start < b.start || (a.start == b.start && a.end <= b.end)
}

/// Sorted in text order and pairwise without a shared position.
pub open spec fn sorted_disjoint(ms: Seq<MatchView>) -> bool {
    forall|i: int, j: int|
        0 <= i < j < ms.len() ==> position_le(#[trigger] ms[i], #[trigger] ms[j]) && !overlaps(
            ms[i],
            ms[j],
        )
}

/// Some match of `kept` overlaps `y` and ranks no later than it.
pub open spec fn covered_by(kept: Seq<MatchView>, y: MatchView) -> bool {
    exists|j: int| 0 <= j < kept.len() && overlaps(kept[j], y) && ranks_before(kept[j], y)
}

/// `res` is how the overlaps among `cands` are resolved: it is sorted and
/// overlap-free, takes its matches from `cands`, and every candidate left out
/// overlaps a kept match that ranks no later than it.
pub open spec fn resolution(cands: Seq<MatchView>, res: Seq<MatchView>) -> bool {
    &&& sorted_disjoint(res)
    &&& res.to_multiset().subset_of(cands.to_multiset())
    &&& forall|i: int|
        0 <= i < cands.len() && !res.contains(#[trigger] cands[i]) ==> covered_by(res, cands[i])
}

/// No two different candidates rank no later than each other.
pub open spec fn no_rank_ties(cands: Seq<MatchView>) -> bool {
    forall|a: int, b: int|
        0 <= a < cands.len() && 0 <= b < cands.len() && cands[a] != cands[b] ==> !(ranks_before(
            #[trigger] cands[a],
            #[trigger] cands[b],
        ) && ranks_before(cands[b], cands[a]))
}

/// Candidates of one detector with the same span are the same match.
pub open spec fn span_and_order_decide(cands: Seq<MatchView>) -> bool {
    forall|a: int, b: int|
        0 <= a < cands.len() && 0 <= b < cands.len() && (#[trigger] cands[a]).order
            == (#[trigger] cands[b]).order && cands[a].start == cands[b].start && cands[a].end
            == cands[b].end ==> cands[a] == cands[b]
}

/// When a candidate is decided by its detector's order and its span, candidates
/// never tie in rank: two that rank no later than each other are the same match.
pub proof fn law_span_and_order_leave_no_ties(cands: Seq<MatchView>, n: int)
    requires
        within(cands, n),
        span_and_order_decide(cands),
    ensures
        no_rank_ties(cands),
{
    assert forall|a: int, b: int|
        0 <= a < cands.len() && 0 <= b < cands.len() && cands[a] != cands[b] implies !(ranks_before(
        #[trigger] cands[a],
        #[trigger] cands[b],
    ) && ranks_before(cands[b], cands[a])) by {
        assert(cands[a].start <= cands[a].end && cands[b].start <= cands[b].end);
    }
}

/// A candidate that ranks strictly before every other candidate it overlaps is
/// kept: higher priority wins, then the longer match, then the earlier one.
pub proof fn law_outranking_candidate_is_kept(cands: Seq<MatchView>, res: Seq<MatchView>, i: int)
    requires
        resolution(cands, res),
        0 <= i < cands.len(),
        forall|j: int|
            0 <= j < cands.len() && #[trigger] cands[j] != cands[i] && overlaps(cands[j], cands[i])
                ==> !ranks_before(cands[j], cands[i]),
    ensures
        res.contains(cands[i]),
{
    if !res.contains(cands[i]) {
        assert(covered_by(res, cands[i]));
        let j = choose|j: int|
            0 <= j < res.len() && overlaps(res[j], cands[i]) && ranks_before(res[j], cands[i]);
        assert(res.to_multiset().count(res[j]) > 0);
        assert(cands.to_multiset().count(res[j]) > 0);
        assert(cands.contains(res[j]));
        let k = choose|k: int| 0 <= k < cands.len() && cands[k] == res[j];
        assert(cands[k] != cands[i]);
    }
}

/// At equal priority the strictly longer of two matches ranks first, wherever
/// either one starts; the shorter one never ranks before it.
pub proof fn law_longer_ranks_first_at_equal_priority(a: MatchView, b: MatchView)
    requires
        a.start <= a.end,
        b.start <= b.end,
        a.priority == b.priority,
        a.end - a.start > b.end - b.start,
    ensures
        ranks_before(a, b),
        !ranks_before(b, a),
{
}

/// At equal priority and equal length the match that starts earlier ranks first.
pub proof fn law_earlier_start_breaks_length_ties(a: MatchView, b: MatchView)
    requires
        a.start <= a.end,
        b.start <= b.end,
        a.priority == b.priority,
        a.end - a.start == b.end - b.start,
        a.start < b.start,
    ensures
        ranks_before(a, b),
        !ranks_before(b, a),
{
}

/// Matches of equal priority over the same span rank by registration: the
/// earlier registered detector (lower order) first.
pub proof fn law_registration_order_breaks_remaining_ties(a: MatchView, b: MatchView)
    requires
        a.priority == b.priority,
        a.start == b.start,
        a.end == b.end,
        a.order < b.order,
    ensures
        ranks_before(a, b),
        !ranks_before(b, a),
{
}

/// A higher priority ranks first, whatever the lengths and positions.
pub proof fn law_higher_priority_ranks_first(a: MatchView, b: MatchView)
    requires
        a.priority > b.priority,
    ensures
        ranks_before(a, b),
        !ranks_before(b, a),
{
}

/// Of two overlapping candidates of equal priority the strictly longer one is
/// kept and the shorter one is dropped, whichever starts first, as long as the
/// longer one overlaps no other candidate of higher priority, or of equal
/// priority and at least its length.
pub proof fn law_longer_overlapping_candidate_wins(
    cands: Seq<MatchView>,
    res: Seq<MatchView>,
    n: int,
    x: int,
    y: int,
)
    requires
        resolution(cands, res),
        within(cands, n),
        0 <= x < cands.len(),
        0 <= y < cands.len(),
        overlaps(cands[x], cands[y]),
        cands[x].priority == cands[y].priority,
        cands[x].end - cands[x].start > cands[y].end - cands[y].start,
        forall|j: int|
            0 <= j < cands.len() && #[trigger] cands[j] != cands[x] && overlaps(cands[j], cands[x])
                ==> cands[j].priority < cands[x].priority || (cands[j].priority == cands[x].priority
                && cands[j].end - cands[j].start < cands[x].end - cands[x].start),
    ensures
        res.contains(cands[x]),
        !res.contains(cands[y]),
{
    assert forall|j: int|
        0 <= j < cands.len() && #[trigger] cands[j] != cands[x] && overlaps(cands[j], cands[x])
            implies !ranks_before(cands[j], cands[x]) by {
        assert(cands[j].start <= cands[j].end && cands[x].start <= cands[x].end);
    }
    law_outranking_candidate_is_kept(cands, res, x);
    if res.contains(cands[y]) {
        let a = choose|a: int| 0 <= a < res.len() && res[a] == cands[x];
        let b = choose|b: int| 0 <= b < res.len() && res[b] == cands[y];
        assert(cands[x] != cands[y]);
        assert(a != b);
        if a < b {
            assert(!overlaps(res[a], res[b]));
        } else {
            assert(!overlaps(res[b], res[a]));
        }
    }
}

/// A match of a resolution is one of the candidates.
proof fn lemma_resolution_member(cands: Seq<MatchView>, res: Seq<MatchView>, x: MatchView) -> (k: int)
    requires
        res.to_multiset().subset_of(cands.to_multiset()),
        res.contains(x),
    ensures
        0 <= k < cands.len(),
        cands[k] == x,
{
    assert(res.to_multiset().count(x) > 0);
    assert(cands.to_multiset().count(x) > 0);
    assert(cands.contains(x));
    choose|k: int| 0 <= k < cands.len() && cands[k] == x
}

/// Among the first `n` candidates that satisfy `d`, one that ranks no later than
/// all the others.
proof fn lemma_first_ranked(cands: Seq<MatchView>, d: spec_fn(MatchView) -> bool, n: int) -> (i: int)
    requires
        0 < n <= cands.len(),
        exists|k: int| 0 <= k < n && d(cands[k]),
    ensures
        0 <= i < n,
        d(cands[i]),
        forall|k: int| 0 <= k < n && d(cands[k]) ==> ranks_before(cands[i], cands[k]),
    decreases n,
{
    if exists|k: int| 0 <= k < n - 1 && d(cands[k]) {
        let j = lemma_first_ranked(cands, d, n - 1);
        if d(cands[n - 1]) && !ranks_before(cands[j], cands[n - 1]) {
            n - 1
        } else {
            j
        }
    } else {
        n - 1
    }
}

/// Overlaps are resolved deterministically: when no two different candidates tie
/// on priority, length, start and detector order, any two resolutions of the
/// same candidates keep the same matches.
pub proof fn law_resolution_is_unique(cands: Seq<MatchView>, r1: Seq<MatchView>, r2: Seq<MatchView>)
    requires
        resolution(cands, r1),
        resolution(cands, r2),
        no_rank_ties(cands),
    ensures
        forall|x: MatchView| r1.contains(x) <==> r2.contains(x),
{
    let d = |x: MatchView| r1.contains(x) != r2.contains(x);
    if exists|x: MatchView| r1.contains(x) != r2.contains(x) {
        let x0 = choose|x: MatchView| r1.contains(x) != r2.contains(x);
        let k0 = if r1.contains(x0) {
            lemma_resolution_member(cands, r1, x0)
        } else {
            lemma_resolution_member(cands, r2, x0)
        };
        assert(d(cands[k0]));
        let i = lemma_first_ranked(cands, d, cands.len() as int);
        let x = cands[i];
        let (ra, rb) = if r1.contains(x) { (r1, r2) } else { (r2, r1) };
        assert(ra.contains(x) && !rb.contains(x));
        assert(covered_by(rb, x));
        let j = choose|j: int| 0 <= j < rb.len() && overlaps(rb[j], x) && ranks_before(rb[j], x);
        let y = rb[j];
        assert(rb.contains(y));
        let ky = lemma_resolution_member(cands, rb, y);
        if ra.contains(y) {
            let ix = choose|a: int| 0 <= a < ra.len() && ra[a] == x;
            let iy = choose|a: int| 0 <= a < ra.len() && ra[a] == y;
            assert(x != y);
            if ix < iy {
                assert(!overlaps(ra[ix], ra[iy]));
            } else {
                assert(!overlaps(ra[iy], ra[ix]));
            }
        } else {
            assert(d(cands[ky]));
            assert(ranks_before(x, y));
            assert(cands[ky] != cands[i]);
        }
    }
}

/// A covered candidate stays covered when one more match is inserted.
proof fn lemma_covered_after_insert(kept: Seq<MatchView>, p: int, x: MatchView, y: MatchView)
    requires
        0 <= p <= kept.len(),
        covered_by(kept, y),
    ensures
        covered_by(kept.insert(p, x), y),
{
    let k2 = kept.insert(p, x);
    let j0 = choose|j: int| 0 <= j < kept.len() && overlaps(kept[j], y) && ranks_before(kept[j], y);
    if j0 < p {
        assert(k2[j0] == kept[j0]);
    } else {
        assert(k2[j0 + 1] == kept[j0]);
    }
}

/// Matches taken from candidates that lie inside a text, and hold its characters,
/// do so too.
pub proof fn lemma_sub_multiset_within(
    cands: Seq<MatchView>,
    res: Seq<MatchView>,
    t: Seq<char>,
    s: SettingsView,
)
    requires
        within(cands, t.len() as int),
        faithful(cands, t, s),
        res.to_multiset().subset_of(cands.to_multiset()),
    ensures
        within(res, t.len() as int),
        faithful(res, t, s),
{
    assert forall|k: int| 0 <= k < res.len() implies #[trigger] res[k] == res[k] && res[k].start
        <= res[k].end <= t.len() && res[k].value == t.subrange(res[k].start as int, res[k].end as int)
        && (s.mask_strategy == crate::types::MaskStrategy::LengthPreserving
        ==> res[k].replacement == crate::types::mask_of(s.mask_char, res[k].value.len())) by {
        assert(res.contains(res[k]));
        assert(res.to_multiset().count(res[k]) > 0);
        assert(cands.to_multiset().count(res[k]) > 0);
        assert(cands.contains(res[k]));
        let i = choose|i: int| 0 <= i < cands.len() && cands[i] == res[k];
        assert(cands[i].start <= cands[i].end <= t.len());
    }
}

/// Inserting an element into a sequence inserts it into its multiset.
pub proof fn lemma_insert_to_multiset<A>(s: Seq<A>, p: int, a: A)
    requires
        0 <= p <= s.len(),
    ensures
        s.insert(p, a).to_multiset() =~= s.to_multiset().insert(a),
{
    let s2 = s.insert(p, a);
    assert(s2.remove(p) =~= s);
    assert(s2[p] == a);
    assert(s2.contains(a));
    assert(s2.to_multiset().count(a) > 0);
}

fn ranks_before_exec(a: &PiiMatch, b: &PiiMatch) -> (r: bool)
    ensures
        r == ranks_before(a@, b@),
{
    if a.priority != b.priority {
        return a.priority > b.priority;
    }
    let la = a.len();
    let lb = b.len();
    if la != lb {
        return la > lb;
    }
    if a.start != b.start {
        return a.start < b.start;
    }
    a.order <= b.order
}

fn overlaps_exec(a: &PiiMatch, b: &PiiMatch) -> (r: bool)
    ensures
        r == overlaps(a@, b@),
{
    a.start < b.end && b.start < a.end
}

fn position_le_exec(a: &PiiMatch, b: &PiiMatch) -> (r: bool)
    ensures
        r == position_le(a@, b@),
{
    a.start < b.start || (a.start == b.start && a.end <= b.end)
}

/// Index of a candidate that ranks no later than any other.
fn best_index(pool: &Vec<PiiMatch>) -> (b: usize)
    requires
        pool@.len() > 0,
    ensures
        b < pool@.len(),
        forall|k: int| 0 <= k < pool@.len() ==> ranks_before(pool@[b as int]@, #[trigger] pool@[k]@),
{
    let mut best: usize = 0;
    let mut i: usize = 1;
    while i < pool.len()
        invariant
            1 <= i <= pool@.len(),
            best < i,
            forall|k: int| 0 <= k < i ==> ranks_before(pool@[best as int]@, #[trigger] pool@[k]@),
        decreases pool.len() - i,
    {
        if !ranks_before_exec(&pool[best], &pool[i]) {
            best = i;
        }
        i = i + 1;
    }
    best
}

/// Where `x` goes among the sorted `kept`, or `None` when it overlaps one of them.
fn insertion_point(kept: &Vec<PiiMatch>, x: &PiiMatch) -> (r: Option<usize>)
    requires
        sorted_disjoint(views(kept@)),
    ensures
        r is None ==> exists|j: int| 0 <= j < kept@.len() && overlaps(#[trigger] kept@[j]@, x@),
        r matches Some(p) ==> {
            &&& p <= kept@.len()
            &&& forall|j: int| 0 <= j < kept@.len() ==> !overlaps(#[trigger] kept@[j]@, x@)
            &&& forall|j: int| 0 <= j < p ==> position_le(#[trigger] kept@[j]@, x@)
            &&& forall|j: int| p <= j < kept@.len() ==> position_le(x@, #[trigger] kept@[j]@)
        },
{
    let n = kept.len();
    let mut p = n;
    let mut i: usize = 0;
    while i < n
        invariant
            n == kept@.len(),
            i <= n,
            p <= n,
            forall|j: int| 0 <= j < i ==> !overlaps(#[trigger] kept@[j]@, x@),
            p == n ==> forall|j: int| 0 <= j < i ==> position_le(#[trigger] kept@[j]@, x@),
            p < n ==> p < i && !position_le(kept@[p as int]@, x@) && forall|j: int|
                0 <= j < p ==> position_le(#[trigger] kept@[j]@, x@),
        decreases n - i,
    {
        if overlaps_exec(&kept[i], x) {
            return None;
        }
        if p == n && !position_le_exec(&kept[i], x) {
            p = i;
        }
        i = i + 1;
    }
    proof {
        if p < n {
            assert forall|j: int| p <= j < kept@.len() implies position_le(
                x@,
                #[trigger] kept@[j]@,
            ) by {
                if j > p {
                    assert(views(kept@)[p as int] == kept@[p as int]@);
                    assert(views(kept@)[j] == kept@[j]@);
                }
            }
        }
    }
    Some(p)
}

/// Resolves overlapping matches: candidates are taken by rank (higher priority,
/// then longer, then earlier, then earlier-registered); each is kept unless it
/// overlaps one already kept. The result is in text order.
pub fn resolve_overlaps(matches: Vec<PiiMatch>) -> (r: Vec<PiiMatch>)
    ensures
        resolution(views(matches@), views(r@)),
{
    let ghost cands = views(matches@);
    let mut pool = matches;
    let mut kept: Vec<PiiMatch> = Vec::new();
    let ghost mut dropped: Seq<MatchView> = Seq::empty();
    assert(views(kept@) =~= Seq::<MatchView>::empty());
    assert(dropped.to_multiset() =~= Multiset::empty());
    while pool.len() > 0
        invariant
            cands.to_multiset() =~= views(pool@).to_multiset().add(
                views(kept@).to_multiset(),
            ).add(dropped.to_multiset()),
            sorted_disjoint(views(kept@)),
            forall|k: int, q: int|
                0 <= k < kept@.len() && 0 <= q < pool@.len() ==> ranks_before(
                    #[trigger] kept@[k]@,
                    #[trigger] pool@[q]@,
                ),
            forall|d: int| 0 <= d < dropped.len() ==> covered_by(views(kept@), #[trigger] dropped[d]),
        decreases pool.len(),
    {
        let b = best_index(&pool);
        let ghost old_pool = pool@;
        let ghost old_kept = kept@;
        let x = pool.remove(b);
        proof {
            assert(views(pool@) =~= views(old_pool).remove(b as int));
            assert(views(old_pool)[b as int] == x@);
        }
        match insertion_point(&kept, &x) {
            None => {
                proof {
                    let old_dropped = dropped;
                    dropped = dropped.push(x@);
                    let j = choose|j: int| 0 <= j < kept@.len() && overlaps(#[trigger] kept@[j]@, x@);
                    assert(ranks_before(kept@[j]@, old_pool[b as int]@));
                    assert(views(kept@)[j] == kept@[j]@);
                    assert(covered_by(views(kept@), x@));
                    assert forall|d: int| 0 <= d < dropped.len() implies covered_by(
                        views(kept@),
                        #[trigger] dropped[d],
                    ) by {
                        if d < old_dropped.len() {
                            assert(dropped[d] == old_dropped[d]);
                        }
                    }
                    assert forall|k: int, q: int|
                        0 <= k < kept@.len() && 0 <= q < pool@.len() implies ranks_before(
                            #[trigger] kept@[k]@,
                            #[trigger] pool@[q]@,
                        ) by {
                        if q < b {
                            assert(pool@[q] == old_pool[q]);
                        } else {
                            assert(pool@[q] == old_pool[q + 1]);
                        }
                    }
                }
            },
            Some(p) => {
                kept.insert(p, x);
                proof {
                    assert(views(kept@) =~= views(old_kept).insert(p as int, x@));
                    lemma_insert_to_multiset(views(old_kept), p as int, x@);
                    assert forall|i: int, j: int|
                        0 <= i < j < views(kept@).len() implies position_le(
                        #[trigger] views(kept@)[i],
                        #[trigger] views(kept@)[j],
                    ) && !overlaps(views(kept@)[i], views(kept@)[j]) by {
                        let vk = views(kept@);
                        let vo = views(old_kept);
                        if j < p {
                            assert(vk[i] == vo[i] && vk[j] == vo[j]);
                        } else if j == p {
                            assert(vk[i] == old_kept[i]@);
                        } else if i < p {
                            assert(vk[i] == vo[i] && vk[j] == vo[j - 1]);
                        } else if i == p {
                            assert(vk[j] == old_kept[j - 1]@);
                        } else {
                            assert(vk[i] == vo[i - 1] && vk[j] == vo[j - 1]);
                        }
                    }
                    assert forall|k: int, q: int|
                        0 <= k < kept@.len() && 0 <= q < pool@.len() implies ranks_before(
                            #[trigger] kept@[k]@,
                            #[trigger] pool@[q]@,
                        ) by {
                        let q0 = if q < b { q } else { q + 1 };
                        assert(pool@[q] == old_pool[q0]);
                        if k < p {
                            assert(kept@[k] == old_kept[k]);
                        } else if k == p {
                        } else {
                            assert(kept@[k] == old_kept[k - 1]);
                        }
                    }
                    assert forall|d: int| 0 <= d < dropped.len() implies covered_by(
                        views(kept@),
                        #[trigger] dropped[d],
                    ) by {
                        lemma_covered_after_insert(views(old_kept), p as int, x@, dropped[d]);
                    }
                }
            },
        }
    }
    proof {
        assert(views(pool@) =~= Seq::<MatchView>::empty());
        let vk = views(kept@);
        assert forall|i: int|
            0 <= i < cands.len() && !vk.contains(#[trigger] cands[i]) implies covered_by(
            vk,
            cands[i],
        ) by {
            assert(cands.to_multiset().count(cands[i]) > 0);
            assert(vk.to_multiset().count(cands[i]) == 0);
            assert(dropped.to_multiset().count(cands[i]) > 0);
            assert(dropped.contains(cands[i]));
            let d = choose|d: int| 0 <= d < dropped.len() && dropped[d] == cands[i];
            assert(covered_by(vk, dropped[d]));
        }
    }
    kept
}

/// `a` comes no later than `b` in scan order: earlier start, then longer first.
pub open spec fn scan_before(a: MatchView, b: MatchView) -> bool {
    a.start < b.start || (a.start == b.start && a.end >= b.end)
}

/// Each match starts no earlier than the previous one ends.
pub open spec fn chained(ms: Seq<MatchView>) -> bool {
    forall|i: int| 0 < i < ms.len() ==> ms[i - 1].end <= #[trigger] ms[i].start
}

/// Some match of `kept` comes no later than `y` in scan order and ends after `y` starts.
pub open spec fn shadowed_by(kept: Seq<MatchView>, y: MatchView) -> bool {
    exists|j: int| 0 <= j < kept.len() && scan_before(kept[j], y) && y.start < kept[j].end
}

/// `res` is what a left-to-right scan keeps of `cands`: candidates are taken in
/// scan order and each is kept when it starts at or after the end of the last
/// kept one.
pub open spec fn scan_resolution(cands: Seq<MatchView>, res: Seq<MatchView>) -> bool {
    &&& chained(res)
    &&& forall|i: int, j: int|
        0 <= i < j < res.len() ==> scan_before(#[trigger] res[i], #[trigger] res[j])
    &&& res.to_multiset().subset_of(cands.to_multiset())
    &&& forall|i: int|
        0 <= i < cands.len() && !res.contains(#[trigger] cands[i]) ==> shadowed_by(res, cands[i])
}

fn scan_before_exec(a: &PiiMatch, b: &PiiMatch) -> (r: bool)
    ensures
        r == scan_before(a@, b@),
{
    a.start < b.start || (a.start == b.start && a.end >= b.end)
}

/// Index of the first candidate in scan order.
fn first_in_scan_order(pool: &Vec<PiiMatch>) -> (b: usize)
    requires
        pool@.len() > 0,
    ensures
        b < pool@.len(),
        forall|k: int| 0 <= k < pool@.len() ==> scan_before(pool@[b as int]@, #[trigger] pool@[k]@),
        forall|k: int| 0 <= k < b ==> !scan_before(#[trigger] pool@[k]@, pool@[b as int]@),
{
    let mut best: usize = 0;
    let mut i: usize = 1;
    while i < pool.len()
        invariant
            1 <= i <= pool@.len(),
            best < i,
            forall|k: int| 0 <= k < i ==> scan_before(pool@[best as int]@, #[trigger] pool@[k]@),
            forall|k: int| 0 <= k < best ==> !scan_before(#[trigger] pool@[k]@, pool@[best as int]@),
        decreases pool.len() - i,
    {
        if !scan_before_exec(&pool[best], &pool[i]) {
            best = i;
        }
        i = i + 1;
    }
    best
}

/// Same start and same end.
pub open spec fn same_span(a: MatchView, b: MatchView) -> bool {
    a.start == b.start && a.end == b.end
}

/// Of candidates with equal spans the earlier wins: each kept match is a
/// candidate all of whose earlier candidates with the same span are kept too.
pub open spec fn earlier_same_span_kept(cands: Seq<MatchView>, res: Seq<MatchView>) -> bool {
    forall|x: MatchView|
        #[trigger] res.contains(x) ==> exists|k: int|
            0 <= k < cands.len() && #[trigger] cands[k] == x && forall|i: int|
                0 <= i < k && same_span(#[trigger] cands[i], x) ==> res.contains(cands[i])
}

/// Sorts by start (longer first on ties, the earlier candidate first on equal
/// spans) and keeps each match that starts at or after the end of the last one
/// kept.
pub fn sort_and_remove_overlaps(matches: Vec<PiiMatch>) -> (r: Vec<PiiMatch>)
    ensures
        scan_resolution(views(matches@), views(r@)),
        earlier_same_span_kept(views(matches@), views(r@)),
{
    let ghost cands = views(matches@);
    let ghost mut idx: Seq<int> = Seq::new(matches@.len(), |q: int| q);
    assert forall|j: int| 0 <= j < cands.len() implies idx.contains(j) by {
        assert(idx[j] == j);
    }
    let mut pool = matches;
    let mut filtered: Vec<PiiMatch> = Vec::new();
    let mut last_end: usize = 0;
    let ghost mut dropped: Seq<MatchView> = Seq::empty();
    assert(views(filtered@) =~= Seq::<MatchView>::empty());
    assert(dropped.to_multiset() =~= Multiset::empty());
    while pool.len() > 0
        invariant
            cands.to_multiset() =~= views(pool@).to_multiset().add(
                views(filtered@).to_multiset(),
            ).add(dropped.to_multiset()),
            chained(views(filtered@)),
            forall|i: int, j: int|
                0 <= i < j < filtered@.len() ==> scan_before(
                    #[trigger] views(filtered@)[i],
                    #[trigger] views(filtered@)[j],
                ),
            filtered@.len() == 0 ==> last_end == 0,
            filtered@.len() > 0 ==> last_end == filtered@.last().end,
            forall|k: int, q: int|
                0 <= k < filtered@.len() && 0 <= q < pool@.len() ==> scan_before(
                    #[trigger] filtered@[k]@,
                    #[trigger] pool@[q]@,
                ),
            forall|d: int|
                0 <= d < dropped.len() ==> shadowed_by(views(filtered@), #[trigger] dropped[d]),
            idx.len() == pool@.len(),
            forall|q: int|
                0 <= q < idx.len() ==> 0 <= #[trigger] idx[q] < cands.len() && pool@[q]@
                    == cands[idx[q]],
            forall|q: int, p: int| 0 <= q < p < idx.len() ==> #[trigger] idx[q] < #[trigger] idx[p],
            forall|j: int, q: int|
                #![trigger cands[j], pool@[q]]
                0 <= j < cands.len() && 0 <= q < pool@.len() && !idx.contains(j)
                    && !views(filtered@).contains(cands[j]) && same_span(cands[j], pool@[q]@)
                    ==> cands[j].start < last_end,
            forall|y: MatchView|
                #[trigger] views(filtered@).contains(y) ==> exists|k: int|
                    0 <= k < cands.len() && #[trigger] cands[k] == y && forall|i: int|
                        0 <= i < k && same_span(#[trigger] cands[i], y) ==> views(
                            filtered@,
                        ).contains(cands[i]),
        decreases pool.len(),
    {
        let b = first_in_scan_order(&pool);
        let ghost old_pool = pool@;
        let ghost old_kept = filtered@;
        let ghost old_idx = idx;
        let ghost old_last_end = last_end;
        let ghost kb = idx[b as int];
        let x = pool.remove(b);
        proof {
            idx = old_idx.remove(b as int);
            assert(old_pool[b as int]@ == cands[kb]);
            assert forall|q: int| 0 <= q < idx.len() implies 0 <= #[trigger] idx[q] < cands.len()
                && pool@[q]@ == cands[idx[q]] by {
                if q < b {
                    assert(pool@[q] == old_pool[q] && idx[q] == old_idx[q]);
                } else {
                    assert(pool@[q] == old_pool[q + 1] && idx[q] == old_idx[q + 1]);
                }
            }
            assert forall|q: int, p: int| 0 <= q < p < idx.len() implies #[trigger] idx[q]
                < #[trigger] idx[p] by {
                let q0 = if q < b { q } else { q + 1 };
                let p0 = if p < b { p } else { p + 1 };
                assert(idx[q] == old_idx[q0] && idx[p] == old_idx[p0]);
            }
            assert forall|j: int| 0 <= j < cands.len() && idx.contains(j) implies old_idx.contains(j)
                && j != kb by {
                let q = choose|q: int| 0 <= q < idx.len() && idx[q] == j;
                let q0 = if q < b { q } else { q + 1 };
                assert(idx[q] == old_idx[q0]);
                assert(q0 != b);
                if q0 < b {
                    assert(old_idx[q0] < old_idx[b as int]);
                } else {
                    assert(old_idx[b as int] < old_idx[q0]);
                }
            }
            assert forall|j: int| 0 <= j < cands.len() && old_idx.contains(j) && j != kb implies idx.contains(
                j,
            ) by {
                let q = choose|q: int| 0 <= q < old_idx.len() && old_idx[q] == j;
                if q < b {
                    assert(idx[q] == old_idx[q]);
                } else {
                    assert(q != b);
                    assert(idx[q - 1] == old_idx[q]);
                }
            }
            assert forall|i: int|
                0 <= i < kb && same_span(#[trigger] cands[i], x@) implies !old_idx.contains(i) by {
                if old_idx.contains(i) {
                    let q = choose|q: int| 0 <= q < old_idx.len() && old_idx[q] == i;
                    if q < b {
                        assert(!scan_before(old_pool[q]@, old_pool[b as int]@));
                    } else if q > b {
                        assert(old_idx[b as int] < old_idx[q]);
                    }
                }
            }
        }
        proof {
            assert(views(pool@) =~= views(old_pool).remove(b as int));
            assert(views(old_pool)[b as int] == x@);
            assert forall|k: int, q: int|
                0 <= k < old_kept.len() && 0 <= q < pool@.len() implies scan_before(
                    #[trigger] old_kept[k]@,
                    #[trigger] pool@[q]@,
                ) by {
                if q < b {
                    assert(pool@[q] == old_pool[q]);
                } else {
                    assert(pool@[q] == old_pool[q + 1]);
                }
            }
        }
        if x.start >= last_end {
            last_end = x.end;
            filtered.push(x);
            proof {
                let vk = views(filtered@);
                let vo = views(old_kept);
                assert(vk =~= vo.push(x@));
                assert forall|d: int| 0 <= d < dropped.len() implies shadowed_by(
                    vk,
                    #[trigger] dropped[d],
                ) by {
                    let j0 = choose|j: int|
                        0 <= j < vo.len() && scan_before(vo[j], dropped[d]) && dropped[d].start
                            < vo[j].end;
                    assert(vk[j0] == vo[j0]);
                }
                assert forall|i: int| 0 < i < vk.len() implies vk[i - 1].end <= #[trigger] vk[i].start by {
                    if i < vo.len() {
                        assert(vk[i - 1] == vo[i - 1] && vk[i] == vo[i]);
                    } else {
                        assert(vk[i - 1] == old_kept[i - 1]@);
                    }
                }
                assert forall|i: int, j: int|
                    0 <= i < j < filtered@.len() implies scan_before(
                    #[trigger] vk[i],
                    #[trigger] vk[j],
                ) by {
                    if j < vo.len() {
                        assert(vk[i] == vo[i] && vk[j] == vo[j]);
                    } else {
                        assert(vk[i] == old_kept[i]@);
                        assert(scan_before(old_kept[i]@, old_pool[b as int]@));
                    }
                }
                assert forall|k: int, q: int|
                    0 <= k < filtered@.len() && 0 <= q < pool@.len() implies scan_before(
                        #[trigger] filtered@[k]@,
                        #[trigger] pool@[q]@,
                    ) by {
                    let q0 = if q < b { q } else { q + 1 };
                    assert(pool@[q] == old_pool[q0]);
                    if k < old_kept.len() {
                        assert(filtered@[k] == old_kept[k]);
                    }
                }
                assert forall|y: MatchView| vo.contains(y) implies vk.contains(y) by {
                    let k = choose|k: int| 0 <= k < vo.len() && vo[k] == y;
                    assert(vk[k] == y);
                }
                assert(vk[vo.len() as int] == x@);
                assert forall|i: int|
                    0 <= i < kb && same_span(#[trigger] cands[i], x@) implies vk.contains(
                    cands[i],
                ) by {
                    if !vo.contains(cands[i]) {
                        assert(same_span(cands[i], old_pool[b as int]@));
                        assert(cands[i].start < old_last_end);
                    }
                }
                assert forall|y: MatchView| #[trigger] vk.contains(y) implies exists|k: int|
                    0 <= k < cands.len() && #[trigger] cands[k] == y && forall|i: int|
                        0 <= i < k && same_span(#[trigger] cands[i], y) ==> vk.contains(cands[i]) by {
                    if y == x@ {
                        assert(cands[kb] == y);
                    } else {
                        let m = choose|m: int| 0 <= m < vk.len() && vk[m] == y;
                        assert(m < vo.len());
                        assert(vo[m] == y);
                        assert(vo.contains(y));
                    }
                }
                assert forall|j: int, q: int|
                    #![trigger cands[j], pool@[q]]
                    0 <= j < cands.len() && 0 <= q < pool@.len() && !idx.contains(j) && !vk.contains(
                        cands[j],
                    ) && same_span(cands[j], pool@[q]@) implies cands[j].start < last_end by {
                    let q0 = if q < b { q } else { q + 1 };
                    assert(pool@[q] == old_pool[q0]);
                    assert(j != kb);
                    assert(!vo.contains(cands[j]));
                    assert(cands[j].start < old_last_end);
                    assert(scan_before(old_pool[b as int]@, old_pool[q0]@));
                }
            }
        } else {
            proof {
                let old_dropped = dropped;
                dropped = dropped.push(x@);
                let vk = views(filtered@);
                let last = (filtered@.len() - 1) as int;
                assert(vk[last] == filtered@[last]@);
                assert(scan_before(filtered@[last]@, old_pool[b as int]@));
                assert(shadowed_by(vk, x@));
                assert forall|d: int| 0 <= d < dropped.len() implies shadowed_by(
                    vk,
                    #[trigger] dropped[d],
                ) by {
                    if d < old_dropped.len() {
                        assert(dropped[d] == old_dropped[d]);
                    }
                }
                assert forall|j: int, q: int|
                    #![trigger cands[j], pool@[q]]
                    0 <= j < cands.len() && 0 <= q < pool@.len() && !idx.contains(j) && !vk.contains(
                        cands[j],
                    ) && same_span(cands[j], pool@[q]@) implies cands[j].start < last_end by {
                    let q0 = if q < b { q } else { q + 1 };
                    assert(pool@[q] == old_pool[q0]);
                    if j != kb {
                        assert(!old_idx.contains(j));
                    }
                }
            }
        }
    }
    proof {
        assert(views(pool@) =~= Seq::<MatchView>::empty());
        let vk = views(filtered@);
        assert forall|i: int|
            0 <= i < cands.len() && !vk.contains(#[trigger] cands[i]) implies shadowed_by(
            vk,
            cands[i],
        ) by {
            assert(cands.to_multiset().count(cands[i]) > 0);
            assert(vk.to_multiset().count(cands[i]) == 0);
            assert(dropped.to_multiset().count(cands[i]) > 0);
            assert(dropped.contains(cands[i]));
            let d = choose|d: int| 0 <= d < dropped.len() && dropped[d] == cands[i];
            assert(shadowed_by(vk, dropped[d]));
        }
    }
    filtered
}

} // verus!
