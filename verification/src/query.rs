use vstd::prelude::*;
use crate::anchor::{TimeAnchor, spec_bucket_start, lemma_bucket_start_bounds,
    lemma_bucket_unique, lemma_bucket_aligned, lemma_nested_buckets, lemma_multiple_gap,
    lemma_aligned_dichotomy};
use crate::post::{Post, PostView, PostWithAddress, PostWithAddressView, spec_with_address,
    copy_post, copy_string};
use crate::store::{AnchorEntry, AnchorEntryView, Edge, EntryData, EntryDataView, Address,
    EdgeView, LinkKind, Store, StoreView, IndexError, copy_anchor_entry, anchor_entry_eq};
use crate::index::{indexed, index_levels, index_width, level_anchor, parent_anchor, root_anchor,
    is_root_anchor, post_edge, anchor_edge_of, good_anchor_edge, good_post_edge, entry_good,
    lemma_level_anchors_distinct, lemma_width_divides};

verus! {

/// The answer to a paginated query: a page of records and whether more
/// qualifying records exist beyond it.
pub struct GetPostsResult {
    pub posts: Vec<PostWithAddress>,
    pub more: bool,
}

/// The values of a sequence of anchor entries.
pub open spec fn anchor_views(v: Seq<AnchorEntry>) -> Seq<AnchorEntryView> {
    v.map_values(|a: AnchorEntry| a@)
}

/// The values of a sequence of posts.
pub open spec fn post_views(v: Seq<Post>) -> Seq<PostView> {
    v.map_values(|p: Post| p@)
}

/// The values of a page of addressed posts.
pub open spec fn page_views(v: Seq<PostWithAddress>) -> Seq<PostWithAddressView> {
    v.map_values(|p: PostWithAddress| p@)
}

/// Traversal priority: anchors are visited newest bucket first, and a
/// wider bucket before a narrower one at the same start.
pub open spec fn anchor_le(a: TimeAnchor, b: TimeAnchor) -> bool {
    a.start_timestamp < b.start_timestamp || (a.start_timestamp == b.start_timestamp
        && a.time_span <= b.time_span)
}

/// Whether a record qualifies for a query on `base` with cutoff `before`.
pub open spec fn qualifies(p: PostView, base: Seq<char>, before: Option<u128>) -> bool {
    p.base == base && match before {
        Option::Some(b) => p.timestamp < b,
        Option::None => true,
    }
}

/// Whether this process has the post among the page entries.
pub open spec fn returned(page: Seq<PostWithAddressView>, p: PostView) -> bool {
    exists|k: int|
        0 <= k < page.len() && page[k] == spec_with_address(p, EntryDataView::Post(p))
}

/// Whether an anchor's bucket contains the record's timestamp: the root
/// of the partition contains everything, and a level anchor contains a
/// record exactly when it is the record's bucket at that level.
pub open spec fn covers(a: AnchorEntryView, base: Seq<char>, p: PostView) -> bool {
    a.base == base && (is_root_anchor(a) || exists|i: int| #![auto]
        0 <= i < index_levels() && a == level_anchor(base, p.timestamp, i))
}

/// A non-root anchor that sits aligned at some level of the tree for the
/// given partition.
pub open spec fn well_placed(a: AnchorEntryView, base: Seq<char>) -> bool {
    a.base == base && exists|i: int| #![auto]
        0 <= i < index_levels() && a == level_anchor(
            base,
            a.anchor.start_timestamp,
            i,
        )
}

/// A covering level anchor is the record's bucket at the level its width
/// names, and the record's timestamp lies in that bucket.
pub proof fn lemma_cover_bounds(a: AnchorEntryView, base: Seq<char>, p: PostView, i: int)
    requires
        covers(a, base, p),
        !is_root_anchor(a),
        0 <= i < index_levels(),
        a.anchor.time_span == index_width(i) as u128,
    ensures
        a == level_anchor(base, p.timestamp, i),
        a.anchor.start_timestamp <= p.timestamp < a.anchor.start_timestamp as int + index_width(
            i,
        ),
{
    let j = choose|j: int| #![auto]
        0 <= j < index_levels() && a == level_anchor(base, p.timestamp, j);
    assert(j == i) by {
        if j != i {
            assert(index_width(j) != index_width(i));
        }
    }
    lemma_bucket_start_bounds(p.timestamp as int, index_width(i));
}

/// A record inside a well-placed bucket's interval is covered by it.
pub proof fn lemma_interval_covers(a: AnchorEntryView, base: Seq<char>, p: PostView, i: int)
    requires
        well_placed(a, base),
        0 <= i < index_levels(),
        a.anchor.time_span == index_width(i) as u128,
        a.anchor.start_timestamp <= p.timestamp,
        p.timestamp < a.anchor.start_timestamp as int + index_width(i),
    ensures
        covers(a, base, p),
{
    let j = choose|j: int| #![auto]
        0 <= j < index_levels() && a == level_anchor(base, a.anchor.start_timestamp, j);
    assert(j == i) by {
        if j != i {
            assert(index_width(j) != index_width(i));
        }
    }
    lemma_bucket_aligned(a.anchor.start_timestamp as int, index_width(i));
    lemma_bucket_unique(p.timestamp as int, index_width(i), a.anchor.start_timestamp as int);
    assert(a == level_anchor(base, p.timestamp, i));
}

/// A record covered by a child bucket is covered by the bucket's parent.
pub proof fn lemma_child_cover_lift(
    base: Seq<char>,
    cur: AnchorEntryView,
    child: AnchorEntryView,
    j: int,
    p: PostView,
)
    requires
        0 <= j < index_levels(),
        child == level_anchor(child.base, child.anchor.start_timestamp, j),
        cur == parent_anchor(child.base, child.anchor.start_timestamp, j),
        cur.base == base,
        covers(child, base, p),
    ensures
        covers(cur, base, p),
{
    assert(child.base == base);
    lemma_cover_bounds(child, base, p, j);
    lemma_bucket_start_bounds(p.timestamp as int, index_width(j));
    let cs = child.anchor.start_timestamp as int;
    assert(cs == spec_bucket_start(p.timestamp as int, index_width(j)));
    if j + 1 < index_levels() {
        lemma_width_divides(j, j + 1);
        lemma_nested_buckets(p.timestamp as int, index_width(j), index_width(j + 1));
        assert(spec_bucket_start(cs, index_width(j + 1)) == spec_bucket_start(
            p.timestamp as int,
            index_width(j + 1),
        ));
        assert(cur == level_anchor(base, p.timestamp, j + 1));
    } else {
        assert(cur == root_anchor(base));
        assert(is_root_anchor(cur));
    }
}

/// When the newest queued bucket is a leaf, a record it covers is newer
/// than any qualifying record covered by another queued bucket, as long
/// as no record is covered twice.
pub proof fn lemma_order_transfer(
    base: Seq<char>,
    cur: AnchorEntryView,
    b: AnchorEntryView,
    r: PostView,
    p: PostView,
)
    requires
        cur == level_anchor(base, r.timestamp, 0),
        well_placed(b, base),
        covers(b, base, p),
        anchor_le(b.anchor, cur.anchor),
        !covers(b, base, r),
        !covers(cur, base, p),
    ensures
        r.timestamp > p.timestamp,
{
    let w0 = index_width(0);
    lemma_bucket_start_bounds(r.timestamp as int, w0);
    lemma_bucket_aligned(r.timestamp as int, w0);
    let cs = cur.anchor.start_timestamp as int;
    let ib = choose|i: int| #![auto]
        0 <= i < index_levels() && b == level_anchor(base, b.anchor.start_timestamp, i);
    let wb = index_width(ib);
    lemma_cover_bounds(b, base, p, ib);
    lemma_bucket_start_bounds(p.timestamp as int, wb);
    let bs = b.anchor.start_timestamp as int;
    lemma_bucket_aligned(p.timestamp as int, wb);
    assert(bs == spec_bucket_start(p.timestamp as int, wb));
    assert(bs % wb == 0);
    assert(cs % w0 == 0);
    assert(covers(cur, base, r)) by {
        assert(cur == level_anchor(base, r.timestamp, 0));
    }
    lemma_width_divides(0, ib);
    if ib == 0 {
        assert(b != cur) by {
            if b == cur {
                assert(covers(b, base, r));
            }
        }
        assert(bs != cs) by {
            if bs == cs {
                assert(b == cur);
            }
        }
        assert(bs < cs) by {
            if bs > cs {
                assert(!anchor_le(b.anchor, cur.anchor));
            }
        }
        lemma_multiple_gap(bs, cs, w0);
        assert(p.timestamp < bs + w0 <= cs <= r.timestamp);
    } else {
        lemma_aligned_dichotomy(cs, w0, bs, wb);
        if cs + w0 <= bs {
            assert(bs > cs);
            assert(!anchor_le(b.anchor, cur.anchor));
            assert(false);
        } else if bs + wb <= cs {
            assert(p.timestamp < bs + wb <= cs <= r.timestamp);
        } else {
            assert(bs <= cs && cs + w0 <= bs + wb);
            assert(bs <= r.timestamp < bs + wb);
            lemma_interval_covers(b, base, r, ib);
            assert(false);
        }
    }
}

/// Every queued anchor belongs to the partition, is the root or sits
/// aligned at a level, and respects the cutoff: a bucket whose lower
/// bound is at or past the cutoff cannot contain a qualifying record.
pub open spec fn queue_ok(
    base: Seq<char>,
    before: Option<u128>,
    qv: Seq<AnchorEntryView>,
) -> bool {
    &&& forall|k: int| 0 <= k < qv.len() ==> (#[trigger] qv[k]).base == base
    &&& forall|k: int|
        0 <= k < qv.len() ==> (is_root_anchor(#[trigger] qv[k]) ==> qv[k] == root_anchor(base)
            && qv.len() == 1)
    &&& forall|k: int|
        0 <= k < qv.len() ==> (!is_root_anchor(#[trigger] qv[k]) ==> well_placed(qv[k], base))
    &&& forall|k: int|
        0 <= k < qv.len() ==> (!is_root_anchor(#[trigger] qv[k]) ==> (match before {
            Option::Some(bd) => (qv[k]).anchor.start_timestamp < bd,
            Option::None => true,
        }))
}

/// No qualifying record lies in two queued buckets at once.
pub open spec fn no_double_cover(
    s: StoreView,
    base: Seq<char>,
    before: Option<u128>,
    qv: Seq<AnchorEntryView>,
) -> bool {
    forall|p: PostView, k: int, l: int|
        s.dht_set().contains(EntryDataView::Post(p)) && qualifies(p, base, before) && 0 <= k
            < qv.len() && 0 <= l < qv.len() && k != l ==> !(#[trigger] covers(qv[k], base, p)
            && #[trigger] covers(qv[l], base, p))
}

/// Every record already on the page is newer than any qualifying record
/// still covered by the queue.
pub open spec fn page_after_queue(
    s: StoreView,
    base: Seq<char>,
    before: Option<u128>,
    qv: Seq<AnchorEntryView>,
    page: Seq<PostWithAddressView>,
) -> bool {
    forall|c: int, k: int, p: PostView|
        0 <= c < page.len() && 0 <= k < qv.len() && s.dht_set().contains(EntryDataView::Post(p))
            && qualifies(p, base, before) && #[trigger] covers(qv[k], base, p) ==> (
        #[trigger] page[c]).timestamp > p.timestamp
}

/// Every page entry is a visible qualifying record with its address.
pub open spec fn page_sound(
    s: StoreView,
    base: Seq<char>,
    before: Option<u128>,
    page: Seq<PostWithAddressView>,
) -> bool {
    forall|c: int|
        0 <= c < page.len() ==> exists|p: PostView|
            #[trigger] s.dht_set().contains(EntryDataView::Post(p)) && qualifies(p, base, before)
                && (#[trigger] page[c]) == spec_with_address(p, EntryDataView::Post(p))
}

/// The page is in descending timestamp order.
pub open spec fn page_sorted(page: Seq<PostWithAddressView>) -> bool {
    forall|a: int, b: int|
        0 <= a < b < page.len() ==> (#[trigger] page[a]).timestamp >= (
        #[trigger] page[b]).timestamp
}

/// The record is at most as new as everything on the page.
pub open spec fn older_than_page(p: PostView, page: Seq<PostWithAddressView>) -> bool {
    forall|c: int| 0 <= c < page.len() ==> p.timestamp <= (#[trigger] page[c]).timestamp
}

/// Every visible qualifying record is on the page, still covered by the
/// queue, or left beyond a full page that reported `more`.
pub open spec fn none_missed(
    s: StoreView,
    base: Seq<char>,
    before: Option<u128>,
    qv: Seq<AnchorEntryView>,
    page: Seq<PostWithAddressView>,
    more: bool,
) -> bool {
    forall|p: PostView| #![auto]
        s.dht_set().contains(EntryDataView::Post(p)) && qualifies(p, base, before) ==> returned(
            page,
            p,
        ) || (exists|k: int| 0 <= k < qv.len() && covers(qv[k], base, p)) || (more
            && older_than_page(p, page))
}

/// An anchor the traversal may hold: the partition root, or the target
/// of some edge of the store.
pub open spec fn from_graph(s: StoreView, base: Seq<char>, a: AnchorEntryView) -> bool {
    a == root_anchor(base) || exists|j: int|
        0 <= j < s.edges.len() && (#[trigger] s.edges[j]).tag == Option::Some(a)
}

/// Every queued non-root anchor's parent bucket was already visited.
pub open spec fn queue_parents(
    base: Seq<char>,
    qv: Seq<AnchorEntryView>,
    vv: Seq<AnchorEntryView>,
) -> bool {
    forall|k: int|
        0 <= k < qv.len() ==> (!is_root_anchor(#[trigger] qv[k]) ==> exists|i: int, m: int|
            #![auto]
            0 <= i < index_levels() && qv[k] == level_anchor(
                base,
                qv[k].anchor.start_timestamp,
                i,
            ) && 0 <= m < vv.len() && vv[m] == parent_anchor(
                base,
                qv[k].anchor.start_timestamp,
                i,
            ))
}

/// Every visited non-root anchor's parent bucket was visited before it.
pub open spec fn visited_chain(base: Seq<char>, vv: Seq<AnchorEntryView>) -> bool {
    forall|k: int|
        0 <= k < vv.len() ==> (!is_root_anchor(#[trigger] vv[k]) ==> exists|i: int, m: int|
            #![auto]
            0 <= i < index_levels() && vv[k] == level_anchor(
                base,
                vv[k].anchor.start_timestamp,
                i,
            ) && 0 <= m < k && vv[m] == parent_anchor(base, vv[k].anchor.start_timestamp, i))
}

/// What `all_for_base` returns on an indexed store: the page holds
/// qualifying records with their addresses, newest first, without
/// duplicates; every qualifying record left off the page is older than
/// everything on it; and `more` holds exactly when a qualifying record
/// was left beyond a full page.
pub open spec fn exact_answer(
    s: StoreView,
    base: Seq<char>,
    limit: Option<usize>,
    before: Option<u128>,
    page: Seq<PostWithAddressView>,
    more: bool,
) -> bool {
    &&& page_sorted(page)
    &&& page.no_duplicates()
    &&& page_sound(s, base, before, page)
    &&& forall|p: PostView| #![auto]
        s.dht_set().contains(EntryDataView::Post(p)) && qualifies(p, base, before) && !returned(
            page,
            p,
        ) ==> more && older_than_page(p, page)
    &&& (more ==> exists|p: PostView| #![auto]
        s.dht_set().contains(EntryDataView::Post(p)) && qualifies(p, base, before) && !returned(
            page,
            p,
        ))
    &&& (more ==> (match limit {
        Option::Some(l) => page.len() == l,
        Option::None => false,
    }))
    &&& (match limit {
        Option::Some(l) => page.len() <= l,
        Option::None => !more,
    })
}

/// A bound for the traversal: distinct anchors that all come from the
/// graph cannot outnumber the edges plus the root.
proof fn lemma_visited_bound(s: StoreView, base: Seq<char>, vv: Seq<AnchorEntryView>)
    requires
        vv.no_duplicates(),
        forall|k: int| 0 <= k < vv.len() ==> from_graph(s, base, #[trigger] vv[k]),
    ensures
        vv.len() <= s.edges.len() + 1,
{
    broadcast use vstd::seq_lib::group_seq_properties;

    let ev = vv.map_values(|a: AnchorEntryView| Option::Some(a));
    assert(ev.no_duplicates()) by {
        assert forall|k: int, l: int|
            0 <= k < ev.len() && 0 <= l < ev.len() && k != l implies ev[k] != ev[l] by {
            assert(vv[k] != vv[l]);
        }
    }
    ev.unique_seq_to_set();
    let targets = s.edges.map_values(|ed: EdgeView| ed.tag);
    let big = targets.to_set().insert(Option::Some(root_anchor(base)));
    assert(ev.to_set().subset_of(big)) by {
        assert forall|e: Option<AnchorEntryView>| ev.to_set().contains(e) implies big.contains(
            e,
        ) by {
            let k = choose|k: int| 0 <= k < ev.len() && ev[k] == e;
            assert(from_graph(s, base, vv[k]));
            if vv[k] == root_anchor(base) {
            } else {
                let j = choose|j: int|
                    0 <= j < s.edges.len() && (#[trigger] s.edges[j]).tag == Option::Some(vv[k]);
                assert(targets[j] == e);
                assert(targets.contains(e));
            }
        }
    }
    targets.lemma_cardinality_of_set();
    assert(big.len() <= targets.to_set().len() + 1);
    vstd::set_lib::lemma_len_subset(ev.to_set(), big);
}

fn anchors_contain(v: &Vec<AnchorEntry>, a: &AnchorEntry) -> (r: bool)
    ensures
        r == anchor_views(v@).contains(a@),
{
    let mut i: usize = 0;
    while i < v.len()
        invariant
            0 <= i <= v@.len(),
            forall|k: int| 0 <= k < i ==> anchor_views(v@)[k] != a@,
        decreases v@.len() - i,
    {
        if anchor_entry_eq(&v[i], a) {
            assert(anchor_views(v@)[i as int] == a@);
            return true;
        }
        i += 1;
    }
    assert(forall|k: int| 0 <= k < anchor_views(v@).len() ==> anchor_views(v@)[k] != a@);
    false
}

/// Removes and returns the anchor with the greatest traversal priority.
fn pop_max(queue: &mut Vec<AnchorEntry>) -> (r: AnchorEntry)
    requires
        old(queue)@.len() > 0,
    ensures
        exists|m: int|
            0 <= m < anchor_views(old(queue)@).len() && r@ == anchor_views(old(queue)@)[m]
                && anchor_views(final(queue)@) == anchor_views(old(queue)@).remove(m),
        forall|k: int|
            0 <= k < anchor_views(old(queue)@).len() ==> anchor_le(
                anchor_views(old(queue)@)[k].anchor,
                r@.anchor,
            ),
{
    let mut best: usize = 0;
    let mut i: usize = 1;
    while i < queue.len()
        invariant
            0 <= best < i <= queue@.len() || (best == 0 && i <= queue@.len()),
            best < queue@.len(),
            i >= 1,
            forall|k: int|
                0 <= k < i ==> anchor_le(
                    anchor_views(queue@)[k].anchor,
                    anchor_views(queue@)[best as int].anchor,
                ),
        decreases queue@.len() - i,
    {
        let better = queue[i].anchor.start_timestamp > queue[best].anchor.start_timestamp || (
        queue[i].anchor.start_timestamp == queue[best].anchor.start_timestamp
            && queue[i].anchor.time_span > queue[best].anchor.time_span);
        if better {
            best = i;
        }
        i += 1;
    }
    let ghost pre = queue@;
    let r = queue.remove(best);
    proof {
        assert(anchor_views(queue@) =~= anchor_views(pre).remove(best as int));
        assert(r@ == anchor_views(pre)[best as int]);
    }
    r
}

/// Reads the child anchors off a list of anchor-to-anchor edges: each
/// edge carries its child as its tag; a missing tag is corrupt metadata.
fn decode_children(links: &Vec<Edge>) -> (r: Result<Vec<AnchorEntry>, IndexError>)
    ensures
        match r {
            Result::Ok(v) => {
                &&& v@.len() == links@.len()
                &&& forall|k: int|
                    0 <= k < v@.len() ==> (#[trigger] links@[k]@).tag == Option::Some(
                        anchor_views(v@)[k],
                    )
            },
            Result::Err(e) => e == IndexError::DecodeFailure && exists|k: int|
                0 <= k < links@.len() && (#[trigger] links@[k]@).tag
                    == Option::<AnchorEntryView>::None,
        },
{
    let mut result: Vec<AnchorEntry> = Vec::new();
    let mut i: usize = 0;
    while i < links.len()
        invariant
            0 <= i <= links@.len(),
            result@.len() == i,
            forall|k: int|
                0 <= k < i ==> (#[trigger] links@[k]@).tag == Option::Some(
                    anchor_views(result@)[k],
                ),
        decreases links@.len() - i,
    {
        match &links[i].tag {
            Option::Some(t) => {
                result.push(copy_anchor_entry(t));
            },
            Option::None => {
                assert(links@[i as int]@.tag == Option::<AnchorEntryView>::None);
                return Result::Err(IndexError::DecodeFailure);
            },
        }
        i += 1;
    }
    Result::Ok(result)
}

/// Loads the records off a list of anchor-to-post edges: each target
/// must decode as a record; anything else is corrupt.
fn decode_posts(links: &Vec<Edge>) -> (r: Result<Vec<Post>, IndexError>)
    ensures
        match r {
            Result::Ok(v) => {
                &&& v@.len() == links@.len()
                &&& forall|k: int|
                    0 <= k < v@.len() ==> (#[trigger] links@[k]@).to == EntryDataView::Post(
                        post_views(v@)[k],
                    )
            },
            Result::Err(e) => e == IndexError::DecodeFailure && exists|k: int|
                0 <= k < links@.len() && !((#[trigger] links@[k]@).to matches
                EntryDataView::Post(_)),
        },
{
    let mut result: Vec<Post> = Vec::new();
    let mut i: usize = 0;
    while i < links.len()
        invariant
            0 <= i <= links@.len(),
            result@.len() == i,
            forall|k: int|
                0 <= k < i ==> (#[trigger] links@[k]@).to == EntryDataView::Post(
                    post_views(result@)[k],
                ),
        decreases links@.len() - i,
    {
        match &links[i].to {
            EntryData::Post(p) => {
                result.push(copy_post(p));
            },
            EntryData::Anchor(_) => {
                assert(!(links@[i as int]@.to matches EntryDataView::Post(_)));
                return Result::Err(IndexError::DecodeFailure);
            },
        }
        i += 1;
    }
    Result::Ok(result)
}

/// A record covered by a bucket that is not the record's leaf bucket is
/// covered by one of the bucket's outgoing children: the record's whole
/// ancestor chain is linked in an indexed store.
proof fn lemma_cover_descends(s: StoreView, base: Seq<char>, cv: AnchorEntryView, p: PostView)
    requires
        indexed(s),
        s.dht_set().contains(EntryDataView::Post(p)),
        p.base == base,
        covers(cv, base, p),
        cv != level_anchor(base, p.timestamp, 0),
        cv == root_anchor(base) || well_placed(cv, base),
    ensures
        exists|ed: EdgeView| #![auto]
            s.edge_set().contains(ed) && ed.from == EntryDataView::Anchor(cv) && ed.kind
                == LinkKind::AnchorToAnchor && (match ed.tag {
                Option::Some(c) => covers(c, base, p),
                Option::None => false,
            }),
{
    lemma_level_anchors_distinct(base, p.timestamp);
    if cv == root_anchor(base) {
        crate::index::lemma_post_ancestors(s, p, 2);
        let ed = crate::index::anchor_edge(base, p.timestamp, 2);
        assert(ed.from == EntryDataView::Anchor(root_anchor(base)));
        assert(covers(level_anchor(base, p.timestamp, 2), base, p));
        assert(s.edge_set().contains(ed) && ed.from == EntryDataView::Anchor(cv) && ed.kind
            == LinkKind::AnchorToAnchor && (match ed.tag {
            Option::Some(c) => covers(c, base, p),
            Option::None => false,
        }));
    } else {
        let ic = choose|i: int| #![auto]
            0 <= i < index_levels() && cv == level_anchor(base, cv.anchor.start_timestamp, i);
        lemma_cover_bounds(cv, base, p, ic);
        assert(ic != 0) by {
            if ic == 0 {
                assert(cv == level_anchor(base, p.timestamp, 0));
            }
        }
        crate::index::lemma_post_ancestors(s, p, ic - 1);
        let ed = crate::index::anchor_edge(base, p.timestamp, ic - 1);
        assert(ed.from == EntryDataView::Anchor(level_anchor(base, p.timestamp, ic)));
        assert(covers(level_anchor(base, p.timestamp, ic - 1), base, p));
        assert(s.edge_set().contains(ed) && ed.from == EntryDataView::Anchor(cv) && ed.kind
            == LinkKind::AnchorToAnchor && (match ed.tag {
            Option::Some(c) => covers(c, base, p),
            Option::None => false,
        }));
    }
}

/// A child of the bucket most recently pushed onto the visited list
/// cannot itself be on the visited list: visits follow parents first.
proof fn lemma_visited_child_absent(
    beta: Seq<char>,
    vv1: Seq<AnchorEntryView>,
    cv: AnchorEntryView,
    c: AnchorEntryView,
    j: int,
)
    requires
        visited_chain(beta, vv1),
        vv1.no_duplicates(),
        vv1.len() > 0,
        vv1[vv1.len() - 1] == cv,
        0 <= j < index_levels(),
        c == level_anchor(beta, c.anchor.start_timestamp, j),
        cv == parent_anchor(beta, c.anchor.start_timestamp, j),
    ensures
        !vv1.contains(c),
{
    assert(!is_root_anchor(c)) by {
        assert(index_width(j) > 0);
    }
    if vv1.contains(c) {
        let kv = choose|kv: int| 0 <= kv < vv1.len() && vv1[kv] == c;
        if kv == vv1.len() - 1 {
            assert(c == cv);
            if j + 1 < index_levels() {
                assert(cv.anchor.time_span == index_width(j + 1) as u128);
                assert(index_width(j) != index_width(j + 1));
            } else {
                assert(cv.anchor.time_span == 0);
                assert(index_width(j) > 0);
            }
            assert(false);
        } else {
            let (i, m) = choose|i: int, m: int|
                #![auto]
                0 <= i < index_levels() && vv1[kv] == level_anchor(
                    beta,
                    vv1[kv].anchor.start_timestamp,
                    i,
                ) && 0 <= m < kv && vv1[m] == parent_anchor(
                    beta,
                    vv1[kv].anchor.start_timestamp,
                    i,
                );
            assert(i == j) by {
                if i != j {
                    assert(index_width(i) != index_width(j));
                }
            }
            assert(vv1[m] == cv);
            assert(vv1[m] != vv1[vv1.len() - 1]);
            assert(false);
        }
    }
}

/// Bookkeeping for removing the newest anchor from the queue and
/// marking it visited: the traversal's structural facts survive.
proof fn lemma_after_pop(
    s: StoreView,
    beta: Seq<char>,
    before: Option<u128>,
    qv0: Seq<AnchorEntryView>,
    vv0: Seq<AnchorEntryView>,
    qv1: Seq<AnchorEntryView>,
    vv1: Seq<AnchorEntryView>,
    cv: AnchorEntryView,
    m0: int,
    pg0: Seq<PostWithAddressView>,
)
    requires
        qv0.no_duplicates(),
        vv0.no_duplicates(),
        forall|k: int, l: int|
            0 <= k < qv0.len() && 0 <= l < vv0.len() ==> #[trigger] qv0[k] != #[trigger] vv0[l],
        forall|k: int| 0 <= k < qv0.len() ==> from_graph(s, beta, #[trigger] qv0[k]),
        forall|k: int| 0 <= k < vv0.len() ==> from_graph(s, beta, #[trigger] vv0[k]),
        0 <= m0 < qv0.len(),
        cv == qv0[m0],
        qv1 == qv0.remove(m0),
        vv1 == vv0.push(cv),
        indexed(s) ==> queue_ok(beta, before, qv0),
        indexed(s) ==> no_double_cover(s, beta, before, qv0),
        indexed(s) ==> page_after_queue(s, beta, before, qv0, pg0),
        indexed(s) ==> queue_parents(beta, qv0, vv0),
        indexed(s) ==> visited_chain(beta, vv0),
    ensures
        qv1.no_duplicates(),
        vv1.no_duplicates(),
        forall|k: int, l: int|
            0 <= k < qv1.len() && 0 <= l < vv1.len() ==> #[trigger] qv1[k] != #[trigger] vv1[l],
        forall|k: int| 0 <= k < qv1.len() ==> from_graph(s, beta, #[trigger] qv1[k]),
        forall|k: int| 0 <= k < vv1.len() ==> from_graph(s, beta, #[trigger] vv1[k]),
        vv1.len() <= s.edges.len() + 1,
        indexed(s) ==> forall|k: int|
            0 <= k < qv1.len() ==> !is_root_anchor(#[trigger] qv1[k]) && (qv1[k]).base == beta
                && well_placed(qv1[k], beta) && (match before {
                Option::Some(bd) => (qv1[k]).anchor.start_timestamp < bd,
                Option::None => true,
            }),
        indexed(s) ==> no_double_cover(s, beta, before, qv1),
        indexed(s) ==> page_after_queue(s, beta, before, qv1, pg0),
        indexed(s) ==> queue_parents(beta, qv1, vv1),
        indexed(s) ==> visited_chain(beta, vv1),
        indexed(s) ==> cv.base == beta && (cv == root_anchor(beta) || well_placed(cv, beta)),
{
        assert(vv1 =~= vv0.push(cv));
        assert(qv0.contains(cv));
        assert forall|k: int, l: int|
            0 <= k < qv1.len() && 0 <= l < vv1.len() implies #[trigger] qv1[k]
            != #[trigger] vv1[l] by {
            if k < m0 {
                assert(qv1[k] == qv0[k]);
            } else {
                assert(qv1[k] == qv0[k + 1]);
            }
            if l == vv1.len() - 1 {
                assert(vv1[l] == cv);
                assert(cv == qv0[m0]);
            }
        }
        assert forall|k: int|
            0 <= k < qv1.len() implies from_graph(s, beta, #[trigger] qv1[k]) by {
            if k < m0 {
                assert(qv1[k] == qv0[k]);
            } else {
                assert(qv1[k] == qv0[k + 1]);
            }
        }
        assert(qv1.no_duplicates()) by {
            assert forall|k: int, l: int|
                0 <= k < qv1.len() && 0 <= l < qv1.len() && k != l implies qv1[k]
                != qv1[l] by {
                if k < m0 {
                    assert(qv1[k] == qv0[k]);
                } else {
                    assert(qv1[k] == qv0[k + 1]);
                }
                if l < m0 {
                    assert(qv1[l] == qv0[l]);
                } else {
                    assert(qv1[l] == qv0[l + 1]);
                }
            }
        }
        assert(vv1.no_duplicates()) by {
            assert(!vv0.contains(cv)) by {
                if vv0.contains(cv) {
                    let l = choose|l: int| 0 <= l < vv0.len() && vv0[l] == cv;
                    assert(qv0[m0] != vv0[l]);
                }
            }
        }
        lemma_visited_bound(s, beta, vv1);
        if indexed(s) {
            if !is_root_anchor(cv) {
                assert(visited_chain(beta, vv1)) by {
                    assert forall|k: int|
                        0 <= k < vv1.len() && !is_root_anchor(vv1[k]) implies exists|
                        i: int,
                        m: int,
                    |
                        #![auto]
                        0 <= i < index_levels() && vv1[k] == level_anchor(
                            beta,
                            vv1[k].anchor.start_timestamp,
                            i,
                        ) && 0 <= m < k && vv1[m] == parent_anchor(
                            beta,
                            vv1[k].anchor.start_timestamp,
                            i,
                        ) by {
                        if k < vv0.len() {
                            assert(vv1[k] == vv0[k]);
                            let (i3, m3) = choose|i3: int, m3: int|
                                #![auto]
                                0 <= i3 < index_levels() && vv0[k] == level_anchor(
                                    beta,
                                    vv0[k].anchor.start_timestamp,
                                    i3,
                                ) && 0 <= m3 < k && vv0[m3] == parent_anchor(
                                    beta,
                                    vv0[k].anchor.start_timestamp,
                                    i3,
                                );
                            assert(vv1[m3] == vv0[m3]);
                        } else {
                            assert(vv1[k] == cv);
                            assert(0 <= m0 < qv0.len());
                            assert(!is_root_anchor(qv0[m0]));
                            let (i, m) = choose|i: int, m: int|
                                #![auto]
                                0 <= i < index_levels() && qv0[m0] == level_anchor(
                                    beta,
                                    qv0[m0].anchor.start_timestamp,
                                    i,
                                ) && 0 <= m < vv0.len() && vv0[m] == parent_anchor(
                                    beta,
                                    qv0[m0].anchor.start_timestamp,
                                    i,
                                );
                            assert(vv1[m] == parent_anchor(
                                beta,
                                vv1[k].anchor.start_timestamp,
                                i,
                            ));
                        }
                    }
                }
            } else {
                assert(visited_chain(beta, vv1)) by {
                    assert forall|k: int|
                        0 <= k < vv1.len() && !is_root_anchor(vv1[k]) implies exists|
                        i: int,
                        m: int,
                    |
                        #![auto]
                        0 <= i < index_levels() && vv1[k] == level_anchor(
                            beta,
                            vv1[k].anchor.start_timestamp,
                            i,
                        ) && 0 <= m < k && vv1[m] == parent_anchor(
                            beta,
                            vv1[k].anchor.start_timestamp,
                            i,
                        ) by {
                        assert(k < vv0.len());
                        assert(vv1[k] == vv0[k]);
                        let (i3, m3) = choose|i3: int, m3: int|
                            #![auto]
                            0 <= i3 < index_levels() && vv0[k] == level_anchor(
                                beta,
                                vv0[k].anchor.start_timestamp,
                                i3,
                            ) && 0 <= m3 < k && vv0[m3] == parent_anchor(
                                beta,
                                vv0[k].anchor.start_timestamp,
                                i3,
                            );
                        assert(vv1[m3] == vv0[m3]);
                    }
                }
            }
            assert(queue_parents(beta, qv1, vv1)) by {
                assert forall|k: int|
                    0 <= k < qv1.len() && !is_root_anchor(qv1[k]) implies exists|
                    i: int,
                    m: int,
                |
                    #![auto]
                    0 <= i < index_levels() && qv1[k] == level_anchor(
                        beta,
                        qv1[k].anchor.start_timestamp,
                        i,
                    ) && 0 <= m < vv1.len() && vv1[m] == parent_anchor(
                        beta,
                        qv1[k].anchor.start_timestamp,
                        i,
                    ) by {
                    let k0: int = if k < m0 {
                        k
                    } else {
                        k + 1
                    };
                    assert(qv1[k] == qv0[k0]);
                    assert(!is_root_anchor(qv0[k0]));
                    let (i2, m2) = choose|i2: int, m2: int|
                        #![auto]
                        0 <= i2 < index_levels() && qv0[k0] == level_anchor(
                            beta,
                            qv0[k0].anchor.start_timestamp,
                            i2,
                        ) && 0 <= m2 < vv0.len() && vv0[m2] == parent_anchor(
                            beta,
                            qv0[k0].anchor.start_timestamp,
                            i2,
                        );
                    assert(vv1[m2] == vv0[m2]);
                }
            }
        }
    lemma_visited_bound(s, beta, vv1);
}

/// Traverses the anchor tree best-first, newest bucket first, and
/// returns the records for the partition in descending timestamp order,
/// at most `limit` of them, considering only records older than
/// `before`; `more` reports whether a qualifying record was left beyond
/// a full page.  On an indexed store the answer is exact; corrupt edge
/// metadata is fatal to the call.
#[verifier::rlimit(100)]
#[verifier::loop_isolation(false)]
pub fn all_for_base(store: &Store, base: String, limit: Option<usize>, before: Option<u128>) -> (r:
    Result<GetPostsResult, IndexError>)
    ensures
        match r {
            Result::Ok(res) => {
                &&& (match limit {
                    Option::Some(l) => res.posts@.len() <= l,
                    Option::None => !res.more,
                })
                &&& (indexed(store@) ==> exact_answer(
                    store@,
                    base@,
                    limit,
                    before,
                    page_views(res.posts@),
                    res.more,
                ))
            },
            Result::Err(e) => e == IndexError::DecodeFailure && !indexed(store@),
        },
{
    let ghost s = store@;
    let ghost beta = base@;
    let mut to_visit: Vec<AnchorEntry> = Vec::new();
    to_visit.push(AnchorEntry { base: copy_string(&base), anchor: TimeAnchor::new(0, 0) });
    let mut visited: Vec<AnchorEntry> = Vec::new();
    let mut posts: Vec<PostWithAddress> = Vec::new();
    let mut more = false;
    proof {
        assert(anchor_views(to_visit@) =~= seq![root_anchor(beta)]);
        assert(anchor_views(visited@) =~= Seq::<AnchorEntryView>::empty());
        assert(page_views(posts@) =~= Seq::<PostWithAddressView>::empty());
        assert(is_root_anchor(root_anchor(beta)));
        if indexed(s) {
            assert forall|p: PostView| #![auto]
                s.dht_set().contains(EntryDataView::Post(p)) && qualifies(
                    p,
                    beta,
                    before,
                ) implies returned(page_views(posts@), p) || (exists|k: int|
                0 <= k < anchor_views(to_visit@).len() && covers(
                    anchor_views(to_visit@)[k],
                    beta,
                    p,
                )) || (more && older_than_page(p, page_views(posts@))) by {
                assert(covers(anchor_views(to_visit@)[0], beta, p));
            }
        }
    }
    while to_visit.len() > 0
        invariant
            anchor_views(to_visit@).no_duplicates(),
            anchor_views(visited@).no_duplicates(),
            forall|k: int, l: int|
                0 <= k < anchor_views(to_visit@).len() && 0 <= l < anchor_views(visited@).len()
                    ==> #[trigger] anchor_views(to_visit@)[k] != #[trigger] anchor_views(visited@)[l],
            forall|k: int|
                0 <= k < anchor_views(to_visit@).len() ==> from_graph(
                    s,
                    beta,
                    #[trigger] anchor_views(to_visit@)[k],
                ),
            forall|k: int|
                0 <= k < anchor_views(visited@).len() ==> from_graph(
                    s,
                    beta,
                    #[trigger] anchor_views(visited@)[k],
                ),
            anchor_views(visited@).len() <= s.edges.len() + 1,
            match limit {
                Option::Some(l) => page_views(posts@).len() <= l && (more ==> page_views(
                    posts@,
                ).len() == l),
                Option::None => !more,
            },
            indexed(s) ==> queue_ok(beta, before, anchor_views(to_visit@)),
            indexed(s) ==> ((exists|k: int|
                0 <= k < anchor_views(to_visit@).len() && is_root_anchor(
                    #[trigger] anchor_views(to_visit@)[k],
                )) ==> page_views(posts@).len() == 0 && !more),
            indexed(s) ==> no_double_cover(s, beta, before, anchor_views(to_visit@)),
            indexed(s) ==> page_after_queue(
                s,
                beta,
                before,
                anchor_views(to_visit@),
                page_views(posts@),
            ),
            indexed(s) ==> page_sound(s, beta, before, page_views(posts@)),
            indexed(s) ==> page_sorted(page_views(posts@)),
            indexed(s) ==> page_views(posts@).no_duplicates(),
            indexed(s) ==> none_missed(
                s,
                beta,
                before,
                anchor_views(to_visit@),
                page_views(posts@),
                more,
            ),
            indexed(s) ==> (more ==> exists|p: PostView| #![auto]
                s.dht_set().contains(EntryDataView::Post(p)) && qualifies(p, beta, before)
                    && !returned(page_views(posts@), p)),
            indexed(s) ==> queue_parents(beta, anchor_views(to_visit@), anchor_views(visited@)),
            indexed(s) ==> visited_chain(beta, anchor_views(visited@)),
            s == store@,
            beta == base@,
        decreases s.edges.len() + 2 - anchor_views(visited@).len(),
    {
        let ghost qv0 = anchor_views(to_visit@);
        let ghost vv0 = anchor_views(visited@);
        let ghost pg0 = page_views(posts@);
        let ghost more0 = more;
        let current = pop_max(&mut to_visit);
        let ghost cv = current@;
        let ghost m0 = choose|m: int|
            0 <= m < qv0.len() && cv == qv0[m] && anchor_views(to_visit@) == qv0.remove(m);
        let ghost qv1 = qv0.remove(m0);
        let current_addr = Address { entry: EntryData::Anchor(copy_anchor_entry(&current)) };
        visited.push(current);
        let ghost vv1 = anchor_views(visited@);
        proof {
            assert(vv1 =~= vv0.push(cv));
            lemma_after_pop(s, beta, before, qv0, vv0, qv1, vv1, cv, m0, pg0);
        }
        let links = store.get_links(&current_addr, LinkKind::AnchorToAnchor);
        let children = match decode_children(&links) {
            Result::Ok(v) => v,
            Result::Err(e) => {
                proof {
                    if indexed(s) {
                        let k = choose|k: int|
                            0 <= k < links@.len() && (#[trigger] links@[k]@).tag
                                == Option::<AnchorEntryView>::None;
                        assert(s.edge_set().contains(links@[k]@));
                        assert(good_anchor_edge(s, links@[k]@));
                        assert(false);
                    }
                }
                return Result::Err(e);
            },
        };
        proof {
            if indexed(s) {
                assert forall|k: int|
                    0 <= k < children@.len() implies good_anchor_edge(
                    s,
                    #[trigger] links@[k]@,
                ) && links@[k]@.tag == Option::Some(anchor_views(children@)[k]) by {
                    assert(s.edge_set().contains(links@[k]@));
                }
                assert(cv.base == beta);
                assert forall|k: int| 0 <= k < qv1.len() implies !is_root_anchor(
                    #[trigger] qv1[k],
                ) && (qv1[k]).base == beta && well_placed(qv1[k], beta) && (match before {
                    Option::Some(bd) => (qv1[k]).anchor.start_timestamp < bd,
                    Option::None => true,
                }) by {
                    if k < m0 {
                        assert(qv1[k] == qv0[k]);
                    } else {
                        assert(qv1[k] == qv0[k + 1]);
                    }
                    if is_root_anchor(qv1[k]) {
                        assert(qv0.len() == 1);
                        assert(false);
                    }
                }
                assert(no_double_cover(s, beta, before, qv1)) by {
                    assert forall|p: PostView, k: int, l: int|
                        s.dht_set().contains(EntryDataView::Post(p)) && qualifies(p, beta, before)
                            && 0 <= k < qv1.len() && 0 <= l < qv1.len() && k != l implies !(
                    #[trigger] covers(qv1[k], beta, p) && #[trigger] covers(
                        qv1[l],
                        beta,
                        p,
                    )) by {
                        let k0: int = if k < m0 {
                            k
                        } else {
                            k + 1
                        };
                        let l0: int = if l < m0 {
                            l
                        } else {
                            l + 1
                        };
                        assert(qv1[k] == qv0[k0] && qv1[l] == qv0[l0]);
                        assert(!(covers(qv0[k0], beta, p) && covers(qv0[l0], beta, p)));
                    }
                }
                assert(page_after_queue(s, beta, before, qv1, pg0)) by {
                    assert forall|c: int, k: int, p: PostView|
                        0 <= c < pg0.len() && 0 <= k < qv1.len() && s.dht_set().contains(
                            EntryDataView::Post(p),
                        ) && qualifies(p, beta, before) && #[trigger] covers(
                        qv1[k],
                        beta,
                        p,
                    ) implies (#[trigger] pg0[c]).timestamp > p.timestamp by {
                        let k0: int = if k < m0 {
                            k
                        } else {
                            k + 1
                        };
                        assert(qv1[k] == qv0[k0]);
                        assert(covers(qv0[k0], beta, p));
                    }
                }
                assert forall|p: PostView| #![auto]
                    s.dht_set().contains(EntryDataView::Post(p)) && qualifies(
                        p,
                        beta,
                        before,
                    ) implies returned(pg0, p) || (exists|k: int|
                    0 <= k < qv1.len() && covers(qv1[k], beta, p)) || (more0 && older_than_page(
                    p,
                    pg0,
                )) || (covers(cv, beta, p) && (cv == level_anchor(beta, p.timestamp, 0) || exists|
                    li: int,
                |
                    0 <= li < children@.len() && covers(
                        anchor_views(children@)[li],
                        beta,
                        p,
                    ))) by {
                    if !returned(pg0, p) && !(more0 && older_than_page(p, pg0)) {
                        let k = choose|k: int| 0 <= k < qv0.len() && covers(qv0[k], beta, p);
                        if k == m0 {
                            assert(covers(cv, beta, p));
                            if cv != level_anchor(beta, p.timestamp, 0) {
                                lemma_cover_descends(s, beta, cv, p);
                                let ed = choose|ed: EdgeView| #![auto]
                                    s.edge_set().contains(ed) && ed.from == EntryDataView::Anchor(
                                        cv,
                                    ) && ed.kind == LinkKind::AnchorToAnchor && (match ed.tag {
                                        Option::Some(c) => covers(c, beta, p),
                                        Option::None => false,
                                    });
                                let li = choose|li: int|
                                    0 <= li < links@.len() && links@[li]@ == ed;
                                assert(covers(anchor_views(children@)[li], beta, p));
                            }
                        } else {
                            if k < m0 {
                                assert(qv1[k] == qv0[k]);
                                assert(covers(qv1[k], beta, p));
                            } else {
                                assert(qv1[k - 1] == qv0[k]);
                                assert(covers(qv1[k - 1], beta, p));
                            }
                        }
                    }
                }
            }
        }
        let mut ci: usize = 0;
        while ci < children.len()
            invariant
                0 <= ci <= children@.len(),
                s == store@,
                beta == base@,
                anchor_views(to_visit@).no_duplicates(),
                forall|k: int, l: int|
                    0 <= k < anchor_views(to_visit@).len() && 0 <= l < vv1.len()
                        ==> #[trigger] anchor_views(to_visit@)[k] != #[trigger] vv1[l],
                forall|k: int|
                    0 <= k < anchor_views(to_visit@).len() ==> from_graph(
                        s,
                        beta,
                        #[trigger] anchor_views(to_visit@)[k],
                    ),
                forall|k: int|
                    0 <= k < anchor_views(to_visit@).len() ==> (qv1.contains(
                        #[trigger] anchor_views(to_visit@)[k],
                    ) || exists|li: int|
                        0 <= li < ci && anchor_views(children@)[li] == anchor_views(
                            to_visit@,
                        )[k]),
                anchor_views(visited@) == vv1,
                children@.len() == links@.len(),
                forall|k: int|
                    0 <= k < children@.len() ==> (#[trigger] links@[k]@).from
                        == EntryDataView::Anchor(cv) && links@[k]@.kind == LinkKind::AnchorToAnchor
                        && s.edge_set().contains(links@[k]@) && links@[k]@.tag == Option::Some(
                        anchor_views(children@)[k],
                    ),
                indexed(s) ==> forall|k: int|
                    0 <= k < children@.len() ==> good_anchor_edge(s, #[trigger] links@[k]@),
                indexed(s) ==> forall|k: int|
                    0 <= k < anchor_views(to_visit@).len() ==> !is_root_anchor(
                        #[trigger] anchor_views(to_visit@)[k],
                    ) && (anchor_views(to_visit@)[k]).base == beta && well_placed(
                        anchor_views(to_visit@)[k],
                        beta,
                    ) && (match before {
                        Option::Some(bd) => (anchor_views(
                            to_visit@,
                        )[k]).anchor.start_timestamp < bd,
                        Option::None => true,
                    }),
                indexed(s) ==> no_double_cover(s, beta, before, anchor_views(to_visit@)),
                indexed(s) ==> page_after_queue(s, beta, before, anchor_views(to_visit@), pg0),
                indexed(s) ==> queue_parents(beta, anchor_views(to_visit@), vv1),
                indexed(s) ==> visited_chain(beta, vv1),
                indexed(s) ==> vv1.len() > 0 && vv1[vv1.len() - 1] == cv,
                indexed(s) ==> (forall|p: PostView| #![auto]
                    s.dht_set().contains(EntryDataView::Post(p)) && qualifies(p, beta, before)
                        ==> returned(pg0, p) || (exists|k: int|
                        0 <= k < anchor_views(to_visit@).len() && covers(
                            anchor_views(to_visit@)[k],
                            beta,
                            p,
                        )) || (more0 && older_than_page(p, pg0)) || (covers(cv, beta, p) && (cv
                        == level_anchor(beta, p.timestamp, 0) || exists|li: int|
                        ci <= li < children@.len() && covers(
                            anchor_views(children@)[li],
                            beta,
                            p,
                        )))),
            decreases children@.len() - ci,
        {
            let child = &children[ci];
            let ghost c = child@;
            let ghost qvb = anchor_views(to_visit@);
            let keep = match before {
                Option::Some(b) => child.anchor.start_timestamp < b,
                Option::None => true,
            };
            let mut in_visited = false;
            let mut in_queue = false;
            let mut pushed = false;
            if keep {
                in_visited = anchors_contain(&visited, child);
                if !in_visited {
                    in_queue = anchors_contain(&to_visit, child);
                    if !in_queue {
                        to_visit.push(copy_anchor_entry(child));
                        pushed = true;
                        proof {
                            assert(anchor_views(to_visit@) =~= qvb.push(c));
                        }
                    }
                }
            }
            proof {
                let qvn = anchor_views(to_visit@);
                if pushed {
                    assert(qvn == qvb.push(c));
                    assert(!qvb.contains(c));
                    assert(from_graph(s, beta, c)) by {
                        assert(s.edge_set().contains(links@[ci as int]@));
                        let j = choose|j: int|
                            0 <= j < s.edges.len() && s.edges[j] == links@[ci as int]@;
                        assert(s.edges[j].tag == Option::Some(c));
                    }
                    assert(qvn.no_duplicates());
                    assert forall|k: int, l: int|
                        0 <= k < qvn.len() && 0 <= l < vv1.len() implies #[trigger] qvn[k]
                        != #[trigger] vv1[l] by {
                        if k == qvn.len() - 1 {
                            assert(!vv1.contains(c));
                        }
                    }
                }
                if indexed(s) {
                    let e_ci = links@[ci as int]@;
                    assert(good_anchor_edge(s, e_ci));
                    let j_c = choose|j: int| #![auto]
                        0 <= j < index_levels() && c == level_anchor(
                            c.base,
                            c.anchor.start_timestamp,
                            j,
                        ) && e_ci.from == EntryDataView::Anchor(
                            parent_anchor(c.base, c.anchor.start_timestamp, j),
                        );
                    assert(parent_anchor(c.base, c.anchor.start_timestamp, j_c) == cv);
                    assert(c.base == beta) by {
                        assert(parent_anchor(c.base, c.anchor.start_timestamp, j_c).base
                            == c.base);
                    }
                    assert(!is_root_anchor(c)) by {
                        assert(index_width(j_c) > 0);
                    }
                    assert(well_placed(c, beta));
                    if keep && in_visited {
                        lemma_visited_child_absent(beta, vv1, cv, c, j_c);
                        assert(false);
                    }
                    if pushed {
                        assert forall|p: PostView, k: int, l: int|
                            s.dht_set().contains(EntryDataView::Post(p)) && qualifies(
                                p,
                                beta,
                                before,
                            ) && 0 <= k < qvn.len() && 0 <= l < qvn.len() && k != l implies !(
                        #[trigger] covers(qvn[k], beta, p) && #[trigger] covers(
                            qvn[l],
                            beta,
                            p,
                        )) by {
                            if covers(qvn[k], beta, p) && covers(qvn[l], beta, p) {
                                let new_i: int = qvn.len() - 1;
                                if k != new_i && l != new_i {
                                    assert(qvn[k] == qvb[k] && qvn[l] == qvb[l]);
                                    assert(!(covers(qvb[k], beta, p) && covers(
                                        qvb[l],
                                        beta,
                                        p,
                                    )));
                                } else {
                                    let o: int = if k == new_i {
                                        l
                                    } else {
                                        k
                                    };
                                    assert(qvn[o] == qvb[o]);
                                    assert(covers(c, beta, p) && covers(qvb[o], beta, p));
                                    lemma_child_cover_lift(beta, cv, c, j_c, p);
                                    assert(covers(cv, beta, p));
                                    if qv1.contains(qvb[o]) {
                                        let k1 = choose|k1: int|
                                            0 <= k1 < qv1.len() && qv1[k1] == qvb[o];
                                        let k0: int = if k1 < m0 {
                                            k1
                                        } else {
                                            k1 + 1
                                        };
                                        assert(qv0[k0] == qvb[o] && k0 != m0);
                                        assert(qv0[m0] == cv);
                                        assert(!(covers(qv0[k0], beta, p) && covers(
                                            qv0[m0],
                                            beta,
                                            p,
                                        )));
                                        assert(false);
                                    } else {
                                        let li = choose|li: int|
                                            0 <= li < ci && anchor_views(children@)[li]
                                                == qvb[o];
                                        let cc = anchor_views(children@)[li];
                                        let e_li = links@[li]@;
                                        assert(good_anchor_edge(s, e_li));
                                        let j2 = choose|j: int| #![auto]
                                            0 <= j < index_levels() && cc == level_anchor(
                                                cc.base,
                                                cc.anchor.start_timestamp,
                                                j,
                                            ) && e_li.from == EntryDataView::Anchor(
                                                parent_anchor(
                                                    cc.base,
                                                    cc.anchor.start_timestamp,
                                                    j,
                                                ),
                                            );
                                        assert(parent_anchor(
                                            cc.base,
                                            cc.anchor.start_timestamp,
                                            j2,
                                        ) == cv);
                                        assert(j2 == j_c) by {
                                            if is_root_anchor(cv) {
                                                if j2 + 1 < index_levels() {
                                                    assert(cv.anchor.time_span == index_width(
                                                        j2 + 1,
                                                    ) as u128);
                                                    assert(index_width(j2 + 1) > 0);
                                                }
                                                if j_c + 1 < index_levels() {
                                                    assert(cv.anchor.time_span == index_width(
                                                        j_c + 1,
                                                    ) as u128);
                                                    assert(index_width(j_c + 1) > 0);
                                                }
                                            } else {
                                                assert(j2 + 1 < index_levels() && j_c + 1
                                                    < index_levels());
                                                if j2 != j_c {
                                                    assert(index_width(j2 + 1) != index_width(
                                                        j_c + 1,
                                                    ));
                                                }
                                            }
                                        }
                                        lemma_cover_bounds(cc, beta, p, j_c);
                                        lemma_cover_bounds(c, beta, p, j_c);
                                        assert(cc == c);
                                        assert(qvb.contains(c));
                                        assert(false);
                                    }
                                }
                            }
                        }
                        assert(page_after_queue(s, beta, before, qvn, pg0)) by {
                            assert forall|cc: int, k: int, p: PostView|
                                0 <= cc < pg0.len() && 0 <= k < qvn.len()
                                    && s.dht_set().contains(EntryDataView::Post(p)) && qualifies(
                                    p,
                                    beta,
                                    before,
                                ) && #[trigger] covers(qvn[k], beta, p) implies (
                            #[trigger] pg0[cc]).timestamp > p.timestamp by {
                                if k == qvn.len() - 1 {
                                    lemma_child_cover_lift(beta, cv, c, j_c, p);
                                    assert(covers(qv0[m0], beta, p));
                                } else {
                                    assert(qvn[k] == qvb[k]);
                                    assert(covers(qvb[k], beta, p));
                                }
                            }
                        }
                        assert(queue_parents(beta, qvn, vv1)) by {
                            assert forall|k: int|
                                0 <= k < qvn.len() && !is_root_anchor(qvn[k]) implies exists|
                                i: int,
                                m: int,
                            |
                                #![auto]
                                0 <= i < index_levels() && qvn[k] == level_anchor(
                                    beta,
                                    qvn[k].anchor.start_timestamp,
                                    i,
                                ) && 0 <= m < vv1.len() && vv1[m] == parent_anchor(
                                    beta,
                                    qvn[k].anchor.start_timestamp,
                                    i,
                                ) by {
                                if k == qvn.len() - 1 {
                                    assert(vv1[vv1.len() - 1] == parent_anchor(
                                        beta,
                                        c.anchor.start_timestamp,
                                        j_c,
                                    ));
                                } else {
                                    assert(qvn[k] == qvb[k]);
                                }
                            }
                        }
                    }
                    assert forall|p: PostView| #![auto]
                        s.dht_set().contains(EntryDataView::Post(p)) && qualifies(
                            p,
                            beta,
                            before,
                        ) implies returned(pg0, p) || (exists|k: int|
                        0 <= k < qvn.len() && covers(qvn[k], beta, p)) || (more0
                        && older_than_page(p, pg0)) || (covers(cv, beta, p) && (cv
                        == level_anchor(beta, p.timestamp, 0) || exists|li: int|
                        ci + 1 <= li < children@.len() && covers(
                            anchor_views(children@)[li],
                            beta,
                            p,
                        ))) by {
                        if !returned(pg0, p) && !(more0 && older_than_page(p, pg0)) {
                            if exists|k: int| 0 <= k < qvb.len() && covers(qvb[k], beta, p) {
                                let k = choose|k: int|
                                    0 <= k < qvb.len() && covers(qvb[k], beta, p);
                                assert(qvn[k] == qvb[k]);
                                assert(covers(qvn[k], beta, p));
                            } else if covers(cv, beta, p) && cv != level_anchor(
                                beta,
                                p.timestamp,
                                0,
                            ) {
                                if exists|li: int|
                                    ci <= li < children@.len() && covers(
                                        anchor_views(children@)[li],
                                        beta,
                                        p,
                                    ) {
                                    let li = choose|li: int|
                                        ci <= li < children@.len() && covers(
                                            anchor_views(children@)[li],
                                            beta,
                                            p,
                                        );
                                    if li == ci {
                                        assert(covers(c, beta, p));
                                        if pushed {
                                            assert(qvn[qvn.len() - 1] == c);
                                            assert(covers(qvn[qvn.len() - 1], beta, p));
                                        } else if !keep {
                                            lemma_cover_bounds(c, beta, p, j_c);
                                            assert(false);
                                        } else {
                                            assert(in_queue);
                                            let k = choose|k: int|
                                                0 <= k < qvb.len() && qvb[k] == c;
                                            assert(covers(qvn[k], beta, p));
                                        }
                                    }
                                }
                            }
                        }
                    }
                }
            }
            ci += 1;
        }
        let ghost qvf = anchor_views(to_visit@);
        let plinks = store.get_links(&current_addr, LinkKind::AnchorToPost);
        let mut bucket = match decode_posts(&plinks) {
            Result::Ok(v) => v,
            Result::Err(e) => {
                proof {
                    if indexed(s) {
                        let k = choose|k: int|
                            0 <= k < plinks@.len() && !((#[trigger] plinks@[k]@).to matches
                            EntryDataView::Post(_));
                        assert(s.edge_set().contains(plinks@[k]@));
                        assert(good_post_edge(s, plinks@[k]@));
                        assert(false);
                    }
                }
                return Result::Err(e);
            },
        };
        let ghost pre_bv = post_views(bucket@);
        sort_posts_descending(&mut bucket);
        let ghost bviews = post_views(bucket@);
        proof {
            broadcast use vstd::seq_lib::group_to_multiset_ensures;

            if indexed(s) {
                assert forall|k: int|
                    0 <= k < pre_bv.len() implies s.dht_set().contains(
                    EntryDataView::Post(#[trigger] pre_bv[k]),
                ) && pre_bv[k].base == beta && cv == level_anchor(
                    beta,
                    pre_bv[k].timestamp,
                    0,
                ) by {
                    assert(s.edge_set().contains(plinks@[k]@));
                    assert(good_post_edge(s, plinks@[k]@));
                    assert(plinks@[k]@.to == EntryDataView::Post(pre_bv[k]));
                    assert(plinks@[k]@.from == EntryDataView::Anchor(
                        level_anchor(pre_bv[k].base, pre_bv[k].timestamp, 0),
                    ));
                    assert(level_anchor(pre_bv[k].base, pre_bv[k].timestamp, 0) == cv);
                    assert(pre_bv[k].base == cv.base);
                }
                assert(pre_bv.no_duplicates()) by {
                    assert forall|k: int, l: int|
                        0 <= k < pre_bv.len() && 0 <= l < pre_bv.len() && k != l implies pre_bv[k]
                        != pre_bv[l] by {
                        assert(plinks@[k]@ != plinks@[l]@);
                        assert(good_post_edge(s, plinks@[k]@));
                        assert(good_post_edge(s, plinks@[l]@));
                    }
                }
                assert forall|bi: int|
                    0 <= bi < bviews.len() implies pre_bv.contains(#[trigger] bviews[bi]) by {
                    assert(bviews.to_multiset().count(bviews[bi]) > 0) by {
                        assert(bviews.contains(bviews[bi]));
                    }
                    assert(pre_bv.to_multiset().count(bviews[bi]) > 0);
                }
                assert forall|k: int|
                    0 <= k < pre_bv.len() implies bviews.contains(#[trigger] pre_bv[k]) by {
                    assert(pre_bv.to_multiset().count(pre_bv[k]) > 0) by {
                        assert(pre_bv.contains(pre_bv[k]));
                    }
                    assert(bviews.to_multiset().count(pre_bv[k]) > 0);
                }
                assert(bviews.no_duplicates()) by {
                    pre_bv.lemma_multiset_has_no_duplicates();
                    bviews.lemma_multiset_has_no_duplicates_conv();
                }
                if bviews.len() > 0 {
                    assert(cv == level_anchor(beta, bviews[0].timestamp, 0)) by {
                        assert(pre_bv.contains(bviews[0]));
                        let k = choose|k: int| 0 <= k < pre_bv.len() && pre_bv[k] == bviews[0];
                    }
                    assert(children@.len() == 0) by {
                        if children@.len() > 0 {
                            assert(good_anchor_edge(s, links@[0]@));
                            let c0 = anchor_views(children@)[0];
                            let j0 = choose|j: int| #![auto]
                                0 <= j < index_levels() && c0 == level_anchor(
                                    c0.base,
                                    c0.anchor.start_timestamp,
                                    j,
                                ) && links@[0]@.from == EntryDataView::Anchor(
                                    parent_anchor(c0.base, c0.anchor.start_timestamp, j),
                                );
                            assert(parent_anchor(c0.base, c0.anchor.start_timestamp, j0) == cv);
                            assert(cv.anchor.time_span == index_width(0) as u128);
                            if j0 + 1 < index_levels() {
                                assert(cv.anchor.time_span == index_width(j0 + 1) as u128);
                                assert(index_width(j0 + 1) != index_width(0));
                            } else {
                                assert(cv.anchor.time_span == 0);
                                assert(index_width(0) > 0);
                            }
                            assert(false);
                        }
                    }
                    assert forall|k: int|
                        0 <= k < qvf.len() implies qv1.contains(#[trigger] qvf[k]) by {}
                    assert forall|k: int|
                        0 <= k < qvf.len() implies anchor_le(
                        (#[trigger] qvf[k]).anchor,
                        cv.anchor,
                    ) by {
                        let k1 = choose|k1: int| 0 <= k1 < qv1.len() && qv1[k1] == qvf[k];
                        let k0: int = if k1 < m0 {
                            k1
                        } else {
                            k1 + 1
                        };
                        assert(qv0[k0] == qvf[k]);
                    }
                }
            }
        }
        proof {
            if indexed(s) {
                assert forall|p: PostView| #![auto]
                    s.dht_set().contains(EntryDataView::Post(p)) && qualifies(
                        p,
                        beta,
                        before,
                    ) implies returned(pg0, p) || (exists|k: int|
                    0 <= k < qvf.len() && covers(qvf[k], beta, p)) || (more && older_than_page(
                    p,
                    pg0,
                )) || (!more && covers(cv, beta, p) && cv == level_anchor(beta, p.timestamp, 0)
                    && exists|bi: int| 0 <= bi < bviews.len() && bviews[bi] == p) by {
                    if !returned(pg0, p) && !(exists|k: int|
                        0 <= k < qvf.len() && covers(qvf[k], beta, p)) && !(more
                        && older_than_page(p, pg0)) {
                        assert(covers(cv, beta, p) && cv == level_anchor(beta, p.timestamp, 0));
                        assert(entry_good(s, EntryDataView::Post(p)));
                        assert(s.edge_set().contains(post_edge(p)));
                        assert(p.base == beta);
                        assert(post_edge(p).from == EntryDataView::Anchor(cv));
                        assert(post_edge(p).kind == LinkKind::AnchorToPost);
                        let k = choose|k: int|
                            0 <= k < plinks@.len() && plinks@[k]@ == post_edge(p);
                        assert(pre_bv[k] == p);
                        assert(bviews.contains(p));
                        let bi = choose|bi: int| 0 <= bi < bviews.len() && bviews[bi] == p;
                        assert(0 <= bi < bviews.len() && bviews[bi] == p);
                    }
                }
            }
        }
        let mut pi: usize = 0;
        let mut stop = false;
        while pi < bucket.len() && !stop
            invariant
                0 <= pi <= bucket@.len(),
                s == store@,
                beta == base@,
                bviews == post_views(bucket@),
                page_views(posts@).len() >= pg0.len(),
                forall|c: int| 0 <= c < pg0.len() ==> #[trigger] page_views(posts@)[c] == pg0[c],
                forall|c: int|
                    pg0.len() <= c < page_views(posts@).len() ==> exists|bi: int|
                        0 <= bi < pi && #[trigger] page_views(posts@)[c] == spec_with_address(
                            bviews[bi],
                            EntryDataView::Post(bviews[bi]),
                        ),
                match limit {
                    Option::Some(l) => page_views(posts@).len() <= l && (more ==> page_views(
                        posts@,
                    ).len() == l),
                    Option::None => !more,
                },
                stop ==> more,
                more0 ==> more,
                indexed(s) ==> page_sorted(page_views(posts@)),
                indexed(s) ==> page_views(posts@).no_duplicates(),
                indexed(s) ==> page_sound(s, beta, before, page_views(posts@)),
                indexed(s) ==> page_after_queue(
                    s,
                    beta,
                    before,
                    qvf,
                    page_views(posts@),
                ),
                indexed(s) ==> (more ==> exists|p: PostView| #![auto]
                    s.dht_set().contains(EntryDataView::Post(p)) && qualifies(p, beta, before)
                        && !returned(page_views(posts@), p)),
                indexed(s) ==> (forall|p: PostView| #![auto]
                    s.dht_set().contains(EntryDataView::Post(p)) && qualifies(p, beta, before)
                        ==> returned(page_views(posts@), p) || (exists|k: int|
                        0 <= k < qvf.len() && covers(qvf[k], beta, p)) || (more
                        && older_than_page(p, page_views(posts@))) || (!more && covers(
                        cv,
                        beta,
                        p,
                    ) && cv == level_anchor(beta, p.timestamp, 0) && exists|bi: int|
                        pi <= bi < bviews.len() && bviews[bi] == p)),
            decreases bucket@.len() - pi + (if stop { 0int } else { 1int }),
        {
            let ghost pgb = page_views(posts@);
            let ghost rr = bviews[pi as int];
            let keep = match before {
                Option::Some(b) => bucket[pi].timestamp < b,
                Option::None => true,
            };
            let full = match limit {
                Option::Some(l) => posts.len() >= l,
                Option::None => false,
            };
            if keep && full {
                more = true;
                stop = true;
                proof {
                    if indexed(s) {
                        assert(pre_bv.contains(rr));
                        assert(s.dht_set().contains(EntryDataView::Post(rr)));
                        assert(qualifies(rr, beta, before));
                        assert(covers(cv, beta, rr)) by {
                            let k = choose|k: int| 0 <= k < pre_bv.len() && pre_bv[k] == rr;
                            assert(cv == level_anchor(beta, rr.timestamp, 0));
                        }
                        assert(!returned(pgb, rr)) by {
                            if returned(pgb, rr) {
                                let c = choose|c: int|
                                    0 <= c < pgb.len() && pgb[c] == spec_with_address(
                                        rr,
                                        EntryDataView::Post(rr),
                                    );
                                if c < pg0.len() {
                                    assert(pg0[c].timestamp > rr.timestamp) by {
                                        assert(covers(qv0[m0], beta, rr));
                                    }
                                    assert(pg0[c].timestamp == rr.timestamp);
                                } else {
                                    let bi = choose|bi: int|
                                        0 <= bi < pi && pgb[c] == spec_with_address(
                                            bviews[bi],
                                            EntryDataView::Post(bviews[bi]),
                                        );
                                    assert(bviews[bi] == rr);
                                    assert(bviews[bi] != bviews[pi as int]);
                                }
                            }
                        }
                        assert forall|p: PostView| #![auto]
                            s.dht_set().contains(EntryDataView::Post(p)) && qualifies(
                                p,
                                beta,
                                before,
                            ) implies returned(page_views(posts@), p) || (exists|k: int|
                            0 <= k < qvf.len() && covers(qvf[k], beta, p)) || (more
                            && older_than_page(p, page_views(posts@))) || (!more && covers(
                            cv,
                            beta,
                            p,
                        ) && cv == level_anchor(beta, p.timestamp, 0) && exists|bi: int|
                            pi <= bi < bviews.len() && bviews[bi] == p) by {
                            if !returned(pgb, p) && !(exists|k: int|
                                0 <= k < qvf.len() && covers(qvf[k], beta, p)) {
                                if exists|bi: int|
                                    pi <= bi < bviews.len() && bviews[bi] == p {
                                    let bi = choose|bi: int|
                                        pi <= bi < bviews.len() && bviews[bi] == p;
                                    assert(covers(cv, beta, p)) by {
                                        let k = choose|k: int|
                                            0 <= k < pre_bv.len() && pre_bv[k] == p;
                                        assert(cv == level_anchor(beta, p.timestamp, 0));
                                    }
                                    assert(older_than_page(p, pgb)) by {
                                        assert forall|c: int|
                                            0 <= c < pgb.len() implies p.timestamp <= (
                                        #[trigger] pgb[c]).timestamp by {
                                            if c < pg0.len() {
                                                assert(covers(qv0[m0], beta, p));
                                                assert(pg0[c].timestamp > p.timestamp);
                                            } else {
                                                let bi2 = choose|bi2: int|
                                                    0 <= bi2 < pi && pgb[c]
                                                        == spec_with_address(
                                                        bviews[bi2],
                                                        EntryDataView::Post(bviews[bi2]),
                                                    );
                                                assert(bviews[bi2].timestamp
                                                    >= bviews[bi].timestamp);
                                            }
                                        }
                                    }
                                }
                            }
                        }
                    }
                }
            } else {
                if keep {
                    let addr = Address { entry: EntryData::Post(copy_post(&bucket[pi])) };
                    let entry = bucket[pi].with_address(addr);
                    posts.push(entry);
                    proof {
                        assert(page_views(posts@) =~= pgb.push(
                            spec_with_address(rr, EntryDataView::Post(rr)),
                        ));
                        if indexed(s) {
                            assert(pre_bv.contains(rr));
                            let kk = choose|kk: int|
                                0 <= kk < pre_bv.len() && pre_bv[kk] == rr;
                            assert(s.dht_set().contains(EntryDataView::Post(rr)));
                            assert(qualifies(rr, beta, before));
                            assert(covers(cv, beta, rr));
                            let pgn = page_views(posts@);
                            assert forall|a: int, b: int|
                                0 <= a < b < pgn.len() implies (#[trigger] pgn[a]).timestamp
                                >= (#[trigger] pgn[b]).timestamp by {
                                if b == pgn.len() - 1 {
                                    if a < pg0.len() {
                                        assert(pg0[a].timestamp > rr.timestamp) by {
                                            assert(covers(qv0[m0], beta, rr));
                                        }
                                    } else {
                                        let bi = choose|bi: int|
                                            0 <= bi < pi && pgb[a] == spec_with_address(
                                                bviews[bi],
                                                EntryDataView::Post(bviews[bi]),
                                            );
                                        assert(bviews[bi].timestamp >= rr.timestamp);
                                    }
                                }
                            }
                            assert(pgn.no_duplicates()) by {
                                assert forall|a: int, b: int|
                                    0 <= a < pgn.len() && 0 <= b < pgn.len() && a
                                        != b implies pgn[a] != pgn[b] by {
                                    let n: int = pgn.len() - 1;
                                    if a == n || b == n {
                                        let o: int = if a == n {
                                            b
                                        } else {
                                            a
                                        };
                                        if o < pg0.len() {
                                            assert(pg0[o].timestamp > rr.timestamp) by {
                                                assert(covers(qv0[m0], beta, rr));
                                            }
                                        } else {
                                            let bi = choose|bi: int|
                                                0 <= bi < pi && pgb[o] == spec_with_address(
                                                    bviews[bi],
                                                    EntryDataView::Post(bviews[bi]),
                                                );
                                            assert(bviews[bi] != bviews[pi as int]);
                                            assert(spec_with_address(
                                                bviews[bi],
                                                EntryDataView::Post(bviews[bi]),
                                            ).address != spec_with_address(
                                                rr,
                                                EntryDataView::Post(rr),
                                            ).address);
                                        }
                                    }
                                }
                            }
                            assert(page_after_queue(s, beta, before, qvf, pgn)) by {
                                assert forall|c: int, k: int, p: PostView|
                                    0 <= c < pgn.len() && 0 <= k < qvf.len()
                                        && s.dht_set().contains(EntryDataView::Post(p))
                                        && qualifies(p, beta, before) && #[trigger] covers(
                                    qvf[k],
                                    beta,
                                    p,
                                ) implies (#[trigger] pgn[c]).timestamp > p.timestamp by {
                                    if c == pgn.len() - 1 {
                                        assert(qv1.contains(qvf[k]));
                                        assert(anchor_le(qvf[k].anchor, cv.anchor));
                                        assert(!covers(qvf[k], beta, rr)) by {
                                            if covers(qvf[k], beta, rr) {
                                                let k1 = choose|k1: int|
                                                    0 <= k1 < qv1.len() && qv1[k1] == qvf[k];
                                                let k0: int = if k1 < m0 {
                                                    k1
                                                } else {
                                                    k1 + 1
                                                };
                                                assert(qv0[k0] == qvf[k] && k0 != m0);
                                                assert(covers(qv0[m0], beta, rr));
                                                assert(!(covers(qv0[k0], beta, rr) && covers(
                                                    qv0[m0],
                                                    beta,
                                                    rr,
                                                )));
                                            }
                                        }
                                        assert(!covers(cv, beta, p)) by {
                                            if covers(cv, beta, p) {
                                                let k1 = choose|k1: int|
                                                    0 <= k1 < qv1.len() && qv1[k1] == qvf[k];
                                                let k0: int = if k1 < m0 {
                                                    k1
                                                } else {
                                                    k1 + 1
                                                };
                                                assert(qv0[k0] == qvf[k] && k0 != m0);
                                                assert(!(covers(qv0[k0], beta, p) && covers(
                                                    qv0[m0],
                                                    beta,
                                                    p,
                                                )));
                                            }
                                        }
                                        lemma_order_transfer(beta, cv, qvf[k], rr, p);
                                    }
                                }
                            }
                            assert forall|p: PostView| #![auto]
                                s.dht_set().contains(EntryDataView::Post(p)) && qualifies(
                                    p,
                                    beta,
                                    before,
                                ) implies returned(pgn, p) || (exists|k: int|
                                0 <= k < qvf.len() && covers(qvf[k], beta, p)) || (more
                                && older_than_page(p, pgn)) || (!more && covers(cv, beta, p)
                                && cv == level_anchor(beta, p.timestamp, 0) && exists|bi: int|
                                pi + 1 <= bi < bviews.len() && bviews[bi] == p) by {
                                if returned(pgb, p) {
                                    let c = choose|c: int|
                                        0 <= c < pgb.len() && pgb[c] == spec_with_address(
                                            p,
                                            EntryDataView::Post(p),
                                        );
                                    assert(pgn[c] == spec_with_address(
                                        p,
                                        EntryDataView::Post(p),
                                    ));
                                    assert(returned(pgn, p));
                                } else if p == rr {
                                    assert(pgn[pgn.len() - 1] == spec_with_address(
                                        p,
                                        EntryDataView::Post(p),
                                    ));
                                    assert(returned(pgn, p));
                                }
                            }
                        }
                    }
                }
                pi += 1;
            }
        }
        proof {
            if indexed(s) {
                let pgf = page_views(posts@);
                assert(queue_ok(beta, before, qvf));
                assert(none_missed(s, beta, before, qvf, pgf, more)) by {
                    assert forall|p: PostView| #![auto]
                        s.dht_set().contains(EntryDataView::Post(p)) && qualifies(
                            p,
                            beta,
                            before,
                        ) implies returned(pgf, p) || (exists|k: int|
                        0 <= k < qvf.len() && covers(qvf[k], beta, p)) || (more
                        && older_than_page(p, pgf)) by {
                        if !returned(pgf, p) && !(exists|k: int|
                            0 <= k < qvf.len() && covers(qvf[k], beta, p)) && !(more
                            && older_than_page(p, pgf)) {
                            assert(!more && exists|bi: int|
                                pi <= bi < bviews.len() && bviews[bi] == p);
                            assert(!stop);
                            assert(pi >= bviews.len());
                            assert(false);
                        }
                    }
                }
                assert forall|k: int|
                    0 <= k < qvf.len() && is_root_anchor(#[trigger] qvf[k]) implies page_views(
                    posts@,
                ).len() == 0 && !more by {
                    assert(!is_root_anchor(qvf[k]));
                }
            }
        }
    }
    proof {
        if indexed(s) {
            assert(anchor_views(to_visit@).len() == 0);
        }
    }
    Result::Ok(GetPostsResult { posts, more })
}

/// Swapping two entries of a sequence leaves its multiset unchanged.
proof fn lemma_view_swap_multiset(s: Seq<PostView>, t: Seq<PostView>, a: int, b: int)
    requires
        0 <= a < b < s.len(),
        t == s.update(a, s[b]).update(b, s[a]),
    ensures
        t.to_multiset() == s.to_multiset(),
{
    broadcast use vstd::seq_lib::group_to_multiset_ensures;

    let s1 = s.update(a, s[b]);
    assert(s1[b] == s[b]);
    assert(s.to_multiset().count(s[a]) > 0) by {
        assert(s.contains(s[a]));
    }
    assert(s1.to_multiset() == s.to_multiset().insert(s[b]).remove(s[a]));
    assert(t.to_multiset() == s1.to_multiset().insert(s[a]).remove(s1[b]));
    assert(t.to_multiset() =~= s.to_multiset());
}

/// Sorts records newest first.  Records in one bucket are not inherently
/// ordered, so the engine orders them before consuming.
fn sort_posts_descending(v: &mut Vec<Post>)
    ensures
        final(v)@.len() == old(v)@.len(),
        post_views(final(v)@).to_multiset() == post_views(old(v)@).to_multiset(),
        forall|a: int, b: int|
            0 <= a < b < final(v)@.len() ==> post_views(final(v)@)[a].timestamp >= post_views(
                final(v)@,
            )[b].timestamp,
{
    let ghost orig = post_views(v@);
    let mut i: usize = 1;
    while i < v.len()
        invariant
            1 <= i,
            v@.len() == orig.len(),
            post_views(v@).to_multiset() == orig.to_multiset(),
            forall|a: int, b: int|
                0 <= a < b < i && b < v@.len() ==> post_views(v@)[a].timestamp >= post_views(
                    v@,
                )[b].timestamp,
        decreases v@.len() - i,
    {
        let mut j: usize = i;
        while j > 0 && v[j - 1].timestamp < v[j].timestamp
            invariant
                0 <= j <= i < v@.len(),
                v@.len() == orig.len(),
                post_views(v@).to_multiset() == orig.to_multiset(),
                forall|a: int, b: int|
                    0 <= a < b <= i && b < v@.len() && b != j ==> post_views(v@)[a].timestamp
                        >= post_views(v@)[b].timestamp,
            decreases j,
        {
            let ghost before = post_views(v@);
            let x = copy_post(&v[j - 1]);
            let y = copy_post(&v[j]);
            v.set(j - 1, y);
            v.set(j, x);
            proof {
                assert(post_views(v@) =~= before.update(j - 1, before[j as int]).update(
                    j as int,
                    before[j - 1],
                ));
                lemma_view_swap_multiset(before, post_views(v@), j - 1, j as int);
            }
            j -= 1;
        }
        proof {
            assert forall|a: int, b: int|
                0 <= a < b < i + 1 && b < v@.len() implies post_views(v@)[a].timestamp
                >= post_views(v@)[b].timestamp by {
                if b == j && j > 0 {
                    assert(post_views(v@)[a].timestamp >= post_views(v@)[j - 1].timestamp);
                    assert(post_views(v@)[j - 1].timestamp >= post_views(v@)[j as int].timestamp);
                }
            }
        }
        i += 1;
    }
}

} // verus!
