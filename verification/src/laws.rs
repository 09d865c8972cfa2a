use vstd::prelude::*;
use crate::anchor::{TimeAnchor, TimeAnchorTreeSpec, spec_bucket_start, lemma_bucket_start_bounds};
use crate::post::PostView;
use crate::store::{EntryDataView, StoreView};
use crate::index::{index_levels, index_width, level_anchor, root_anchor};
use crate::query::{exact_answer, qualifies};

verus! {

/// Determinism: the anchor path is a pure function of the tree spec and
/// the timestamp, so any two computations of it return identical
/// sequences.
pub proof fn lemma_path_deterministic(
    spec: TimeAnchorTreeSpec,
    timestamp: u128,
    r1: Seq<TimeAnchor>,
    r2: Seq<TimeAnchor>,
)
    requires
        r1 == spec.spec_path(timestamp),
        r2 == spec.spec_path(timestamp),
    ensures
        r1 == r2,
{
}

/// Determinism, second half: two timestamps that fall in the same bucket
/// at a level yield attribute-equal anchors at that level.
pub proof fn lemma_same_bucket_same_anchor(
    spec: TimeAnchorTreeSpec,
    t1: u128,
    t2: u128,
    i: int,
)
    requires
        spec.wf(),
        0 <= i < spec.num_levels(),
        t1 as int / spec.spec_width(i) == t2 as int / spec.spec_width(i),
    ensures
        spec.spec_path(t1)[i] == spec.spec_path(t2)[i],
{
}

/// Width monotonicity: the widths grow strictly from the finest unit
/// upward.  This needs the multipliers pairwise distinct and above one:
/// with a repeated multiplier, or a multiplier of one, two levels share
/// a width and the sequence is not strictly increasing.
pub proof fn lemma_widths_monotonic(spec: TimeAnchorTreeSpec)
    requires
        spec.wf(),
        forall|k: int, l: int|
            0 <= k < l < spec.divisions@.len() ==> spec.divisions@[k] != spec.divisions@[l],
        forall|k: int| 0 <= k < spec.divisions@.len() ==> #[trigger] spec.divisions@[k] > 1,
    ensures
        spec.spec_width(0) == spec.smallest_time_block,
        forall|i: int|
            0 <= i < spec.num_levels() - 1 ==> #[trigger] spec.spec_width(i) < spec.spec_width(
                i + 1,
            ),
{
    let s = spec.smallest_time_block as int;
    assert forall|i: int|
        0 <= i < spec.num_levels() - 1 implies #[trigger] spec.spec_width(i) < spec.spec_width(
        i + 1,
    ) by {
        if i == 0 {
            let d = spec.divisions@[0] as int;
            assert(d >= 2);
            assert(s < d * s) by (nonlinear_arith)
                requires
                    s > 0,
                    d >= 2,
            ;
        } else {
            let d1 = spec.divisions@[i - 1] as int;
            let d2 = spec.divisions@[i] as int;
            assert(spec.divisions@[i - 1] <= spec.divisions@[i]);
            assert(spec.divisions@[i - 1] != spec.divisions@[i]);
            assert(d1 < d2);
            assert(d1 * s < d2 * s) by (nonlinear_arith)
                requires
                    s > 0,
                    d1 < d2,
            ;
        }
    }
}

/// Bucket containment: each anchor on the path covers the timestamp it
/// was derived from, in the half-open sense.
pub proof fn lemma_bucket_containment(spec: TimeAnchorTreeSpec, timestamp: u128, i: int)
    requires
        spec.wf(),
        0 <= i < spec.num_levels(),
    ensures
        spec.spec_path(timestamp)[i].start_timestamp <= timestamp,
        timestamp < spec.spec_path(timestamp)[i].start_timestamp
            + spec.spec_path(timestamp)[i].time_span,
{
    let w = spec.spec_width(i);
    assert(w > 0) by {
        if i > 0 {
            let d = spec.divisions@[i - 1] as int;
            let s = spec.smallest_time_block as int;
            assert(d > 0 && s > 0);
            assert(d * s > 0) by (nonlinear_arith)
                requires
                    d > 0,
                    s > 0,
            ;
        }
    }
    lemma_bucket_start_bounds(timestamp as int, w);
}

/// Idempotent anchors: two `create` calls whose timestamps fall in the
/// same bucket at some level converge on one anchor entry for that
/// level; the second call adds no anchor there that the first did not
/// leave behind.  The hypotheses are the entry clauses of `create`'s
/// contract for the two calls in sequence.
pub proof fn lemma_idempotent_anchors(
    s0: StoreView,
    s1: StoreView,
    s2: StoreView,
    base: Seq<char>,
    t1: u128,
    t2: u128,
    p1: PostView,
    p2: PostView,
    i: int,
)
    requires
        0 <= i < index_levels(),
        spec_bucket_start(t1 as int, index_width(i)) == spec_bucket_start(
            t2 as int,
            index_width(i),
        ),
        forall|e: EntryDataView|
            s1.dht_set().contains(e) <==> (s0.dht_set().contains(e) || e == EntryDataView::Anchor(
                root_anchor(base),
            ) || e == EntryDataView::Post(p1) || (exists|j: int|
                0 <= j < index_levels() && e == EntryDataView::Anchor(level_anchor(base, t1, j)))),
        forall|e: EntryDataView|
            s2.dht_set().contains(e) <==> (s1.dht_set().contains(e) || e == EntryDataView::Anchor(
                root_anchor(base),
            ) || e == EntryDataView::Post(p2) || (exists|j: int|
                0 <= j < index_levels() && e == EntryDataView::Anchor(level_anchor(base, t2, j)))),
    ensures
        level_anchor(base, t1, i) == level_anchor(base, t2, i),
        forall|e: EntryDataView|
            s2.dht_set().contains(e) && (e matches EntryDataView::Anchor(a) && a.base == base
                && a.anchor.time_span == index_width(i) as u128) ==> s1.dht_set().contains(e),
{
    assert(level_anchor(base, t1, i) == level_anchor(base, t2, i));
    assert forall|e: EntryDataView|
        s2.dht_set().contains(e) && (e matches EntryDataView::Anchor(a) && a.base == base
            && a.anchor.time_span == index_width(i) as u128) implies s1.dht_set().contains(
        e,
    ) by {
        if !s1.dht_set().contains(e) {
            let a = e->Anchor_0;
            assert(a.anchor.time_span == index_width(i) as u128);
            assert(e != EntryDataView::Anchor(root_anchor(base))) by {
                assert(index_width(i) > 0);
            }
            let j = choose|j: int|
                0 <= j < index_levels() && e == EntryDataView::Anchor(level_anchor(base, t2, j));
            assert(j == i) by {
                if j != i {
                    assert(index_width(j) != index_width(i));
                }
            }
            assert(e == EntryDataView::Anchor(level_anchor(base, t1, i)));
            assert(s1.dht_set().contains(e));
            assert(false);
        }
    }
}

/// Descending order: on a store whose qualifying records carry pairwise
/// distinct timestamps, the page a query returns is strictly descending.
pub proof fn lemma_strictly_descending(
    s: StoreView,
    base: Seq<char>,
    limit: Option<usize>,
    before: Option<u128>,
    page: Seq<crate::post::PostWithAddressView>,
    more: bool,
)
    requires
        exact_answer(s, base, limit, before, page, more),
        forall|p1: PostView, p2: PostView|
            #[trigger] s.dht_set().contains(EntryDataView::Post(p1))
                && #[trigger] s.dht_set().contains(EntryDataView::Post(p2)) && qualifies(
                p1,
                base,
                before,
            ) && qualifies(p2, base, before) && p1 != p2 ==> p1.timestamp != p2.timestamp,
    ensures
        forall|a: int, b: int|
            0 <= a < b < page.len() ==> (#[trigger] page[a]).timestamp > (
            #[trigger] page[b]).timestamp,
{
    assert forall|a: int, b: int|
        0 <= a < b < page.len() implies (#[trigger] page[a]).timestamp > (
    #[trigger] page[b]).timestamp by {
        let pa = choose|p: PostView|
            #[trigger] s.dht_set().contains(EntryDataView::Post(p)) && qualifies(p, base, before)
                && page[a] == crate::post::spec_with_address(p, EntryDataView::Post(p));
        let pb = choose|p: PostView|
            #[trigger] s.dht_set().contains(EntryDataView::Post(p)) && qualifies(p, base, before)
                && page[b] == crate::post::spec_with_address(p, EntryDataView::Post(p));
        assert(page[a].timestamp >= page[b].timestamp);
        if page[a].timestamp == page[b].timestamp {
            assert(pa.timestamp == pb.timestamp);
            assert(pa == pb) by {
                if pa != pb {
                    assert(pa.timestamp != pb.timestamp);
                }
            }
            assert(page[a] == page[b]);
            assert(false);
        }
    }
}

/// Cutoff soundness: a record that qualifies under a cutoff lies below
/// it, and one at or past the cutoff is never on the page.
pub proof fn lemma_cutoff(
    s: StoreView,
    base: Seq<char>,
    limit: Option<usize>,
    bound: u128,
    page: Seq<crate::post::PostWithAddressView>,
    more: bool,
)
    requires
        exact_answer(s, base, limit, Option::Some(bound), page, more),
    ensures
        forall|c: int| 0 <= c < page.len() ==> (#[trigger] page[c]).timestamp < bound,
{
    assert forall|c: int| 0 <= c < page.len() implies (#[trigger] page[c]).timestamp < bound by {
        let p = choose|p: PostView|
            #[trigger] s.dht_set().contains(EntryDataView::Post(p)) && qualifies(
                p,
                base,
                Option::Some(bound),
            ) && page[c] == crate::post::spec_with_address(p, EntryDataView::Post(p));
    }
}

} // verus!
