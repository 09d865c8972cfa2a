use vstd::prelude::*;
use crate::anchor::{TimeAnchor, TimeAnchorTreeSpec, spec_bucket_start, sorted_ascending,
    lemma_bucket_aligned, lemma_bucket_start_bounds, lemma_nested_buckets};
use crate::post::{Post, PostView, PostWithAddress, spec_with_address, copy_string, copy_post};
use crate::store::{AnchorEntry, AnchorEntryView, EntryData, EntryDataView, Address, EdgeView,
    LinkKind, Store, StoreView, IndexError, is_in_chain, is_in_dht, copy_entry_data};

verus! {

/// Bucket width in milliseconds of level `i` of the fixed anchor tree:
/// hours, then days, then weeks (finest first).
pub open spec fn index_width(i: int) -> int {
    if i == 0 {
        3600000
    } else if i == 1 {
        86400000
    } else {
        604800000
    }
}

/// Number of levels of the fixed anchor tree.
pub open spec fn index_levels() -> int {
    3
}

/// The anchor entry of the bucket at level `i` that contains `t`.
pub open spec fn level_anchor(base: Seq<char>, t: u128, i: int) -> AnchorEntryView {
    AnchorEntryView {
        base,
        anchor: TimeAnchor {
            start_timestamp: spec_bucket_start(t as int, index_width(i)) as u128,
            time_span: index_width(i) as u128,
        },
    }
}

/// The root anchor entry of a partition.
pub open spec fn root_anchor(base: Seq<char>) -> AnchorEntryView {
    AnchorEntryView { base, anchor: TimeAnchor { start_timestamp: 0, time_span: 0 } }
}

/// The parent of the level `i` bucket containing `t`: the next coarser
/// bucket, or the partition root above the coarsest level.
pub open spec fn parent_anchor(base: Seq<char>, t: u128, i: int) -> AnchorEntryView {
    if i + 1 < index_levels() {
        level_anchor(base, t, i + 1)
    } else {
        root_anchor(base)
    }
}

/// The edge from the parent bucket down to the level `i` bucket that
/// contains `t`, carrying the child anchor as its tag.
pub open spec fn anchor_edge(base: Seq<char>, t: u128, i: int) -> EdgeView {
    EdgeView {
        from: EntryDataView::Anchor(parent_anchor(base, t, i)),
        kind: LinkKind::AnchorToAnchor,
        to: EntryDataView::Anchor(level_anchor(base, t, i)),
        tag: Option::Some(level_anchor(base, t, i)),
    }
}

/// The edge that hooks a post onto its leaf bucket.
pub open spec fn post_edge(p: PostView) -> EdgeView {
    EdgeView {
        from: EntryDataView::Anchor(level_anchor(p.base, p.timestamp, 0)),
        kind: LinkKind::AnchorToPost,
        to: EntryDataView::Post(p),
        tag: Option::None,
    }
}

/// The post value `create` builds from its arguments.
pub open spec fn made_post(
    title: Seq<char>,
    details: Seq<char>,
    post_type: Seq<char>,
    creator: Seq<char>,
    announcement: bool,
    timestamp: u128,
    base: Seq<char>,
) -> PostView {
    PostView { title, details, post_type, creator, announcement, timestamp, base }
}

/// Whether an anchor entry is a partition root.
pub open spec fn is_root_anchor(a: AnchorEntryView) -> bool {
    a.anchor.time_span == 0 && a.anchor.start_timestamp == 0
}

/// The parent edge of an anchor that sits, aligned, at level `i`.
pub open spec fn anchor_edge_of(a: AnchorEntryView, i: int) -> EdgeView {
    EdgeView {
        from: EntryDataView::Anchor(parent_anchor(a.base, a.anchor.start_timestamp, i)),
        kind: LinkKind::AnchorToAnchor,
        to: EntryDataView::Anchor(a),
        tag: Option::Some(a),
    }
}

/// An anchor-to-anchor edge is good when it carries its target as its
/// tag, the target sits aligned at some level, and the edge comes from
/// that bucket's parent; both ends are visible.
pub open spec fn good_anchor_edge(s: StoreView, ed: EdgeView) -> bool {
    match ed.tag {
        Option::Some(c) => {
            &&& ed.to == EntryDataView::Anchor(c)
            &&& s.dht_set().contains(ed.to)
            &&& s.dht_set().contains(ed.from)
            &&& exists|i: int| #![auto]
                0 <= i < index_levels() && c == level_anchor(c.base, c.anchor.start_timestamp, i)
                    && ed.from == EntryDataView::Anchor(
                    parent_anchor(c.base, c.anchor.start_timestamp, i),
                )
        },
        Option::None => false,
    }
}

/// An anchor-to-post edge is good when it hangs a post exactly under the
/// leaf bucket of the post's timestamp, with no tag; both ends are
/// visible.
pub open spec fn good_post_edge(s: StoreView, ed: EdgeView) -> bool {
    match ed.to {
        EntryDataView::Post(p) => {
            &&& ed.from == EntryDataView::Anchor(level_anchor(p.base, p.timestamp, 0))
            &&& ed.tag == Option::<AnchorEntryView>::None
            &&& s.dht_set().contains(ed.to)
            &&& s.dht_set().contains(ed.from)
        },
        _ => false,
    }
}

/// A visible entry is good when a post hangs on its leaf bucket and a
/// non-root anchor sits aligned at a level with its parent edge present.
pub open spec fn entry_good(s: StoreView, e: EntryDataView) -> bool {
    match e {
        EntryDataView::Post(p) => s.edge_set().contains(post_edge(p)),
        EntryDataView::Anchor(a) => is_root_anchor(a) || exists|i: int| #![auto]
            0 <= i < index_levels() && a == level_anchor(a.base, a.anchor.start_timestamp, i)
                && s.edge_set().contains(anchor_edge_of(a, i)),
    }
}

/// The shape `create` establishes and maintains: every edge links a
/// bucket tree correctly and every entry is properly hooked into one.
/// The query engine's exactness rests on this invariant.
pub open spec fn indexed(s: StoreView) -> bool {
    &&& s.wf()
    &&& forall|ed: EdgeView| #![auto]
        s.edge_set().contains(ed) ==> (if ed.kind == LinkKind::AnchorToAnchor {
            good_anchor_edge(s, ed)
        } else {
            good_post_edge(s, ed)
        })
    &&& forall|e: EntryDataView| #![auto] s.dht_set().contains(e) ==> entry_good(s, e)
}

/// Each coarser index width is a multiple of each finer one.
pub proof fn lemma_width_divides(i: int, j: int)
    requires
        0 <= i <= j < index_levels(),
    ensures
        index_width(j) % index_width(i) == 0,
        index_width(i) <= index_width(j),
        index_width(i) > 0,
{
    assert(86400000int % 3600000int == 0);
    assert(604800000int % 3600000int == 0);
    assert(604800000int % 86400000int == 0);
}

/// The edge `create` writes for level `i` is exactly the parent edge of
/// the bucket anchor it targets.
pub proof fn lemma_anchor_edge_norm(base: Seq<char>, t: u128, i: int)
    requires
        0 <= i < index_levels(),
    ensures
        level_anchor(
            base,
            level_anchor(base, t, i).anchor.start_timestamp as u128,
            i,
        ) == level_anchor(base, t, i),
        anchor_edge_of(level_anchor(base, t, i), i) == anchor_edge(base, t, i),
{
    let w = index_width(i);
    lemma_width_divides(i, i);
    lemma_bucket_start_bounds(t as int, w);
    lemma_bucket_aligned(t as int, w);
    let s = spec_bucket_start(t as int, w);
    assert(spec_bucket_start(s, w) == s);
    if i + 1 < index_levels() {
        let w2 = index_width(i + 1);
        lemma_width_divides(i, i + 1);
        lemma_nested_buckets(t as int, w, w2);
        assert(spec_bucket_start(s, w2) == spec_bucket_start(t as int, w2));
        assert(parent_anchor(base, s as u128, i) == parent_anchor(base, t, i));
    } else {
        assert(parent_anchor(base, s as u128, i) == root_anchor(base));
    }
}

/// Anchors of distinct levels differ, and no level anchor is the root:
/// the bucket width tells them apart.
pub proof fn lemma_level_anchors_distinct(base: Seq<char>, t: u128)
    ensures
        forall|i: int, j: int|
            0 <= i < j < index_levels() ==> level_anchor(base, t, i) != level_anchor(base, t, j),
        forall|i: int| 0 <= i < index_levels() ==> level_anchor(base, t, i) != root_anchor(base),
{
    assert forall|i: int, j: int|
        0 <= i < j < index_levels() implies level_anchor(base, t, i) != level_anchor(
        base,
        t,
        j,
    ) by {
        assert(index_width(i) != index_width(j));
    }
    assert forall|i: int| 0 <= i < index_levels() implies level_anchor(base, t, i)
        != root_anchor(base) by {
        assert(index_width(i) > 0);
    }
}

/// This specifies the structure of the time anchors: hours -> days -> weeks.
pub fn time_anchor_spec() -> (r: TimeAnchorTreeSpec)
    ensures
        r.wf(),
        r.num_levels() == index_levels(),
        forall|i: int| 0 <= i < index_levels() ==> r.spec_width(i) == index_width(i),
{
    let mut divisions: Vec<u32> = Vec::new();
    divisions.push(24);
    divisions.push(24 * 7);
    proof {
        assert(divisions@ =~= seq![24u32, 168u32]);
        assert(sorted_ascending(divisions@));
    }
    let r = TimeAnchorTreeSpec::new(60 * 60 * 1000, divisions);
    proof {
        assert(r.divisions@ == seq![24u32, 168u32]);
        assert(r.divisions@[0] == 24u32 && r.divisions@[1] == 168u32);
        assert(24int * 3600000int == 86400000int) by (nonlinear_arith);
        assert(168int * 3600000int == 604800000int) by (nonlinear_arith);
        assert(r.spec_width(1) == 86400000);
        assert(r.spec_width(2) == 604800000);
    }
    r
}

/// Creates a record: idempotently materializes the partition root and
/// the anchor path for the record's timestamp, commits the record, and
/// hooks it onto its leaf bucket.  The contract pins exactly which
/// entries and edges exist afterwards: the anchors are pure functions of
/// `(base, timestamp)`, so repeating a call (or racing another writer)
/// converges on the same entries instead of duplicating them.
pub fn create(
    store: &mut Store,
    base: String,
    title: String,
    details: String,
    post_type: String,
    announcement: bool,
    timestamp: u128,
    creator: String,
) -> (r: Result<PostWithAddress, IndexError>)
    requires
        old(store)@.wf(),
    ensures
        final(store)@.wf(),
        (r matches Result::Ok(p) && p@ == spec_with_address(
            made_post(title@, details@, post_type@, creator@, announcement, timestamp, base@),
            EntryDataView::Post(
                made_post(title@, details@, post_type@, creator@, announcement, timestamp, base@),
            ),
        )),
        forall|e: EntryDataView|
            final(store)@.dht_set().contains(e) <==> (old(store)@.dht_set().contains(e) || e
                == EntryDataView::Anchor(root_anchor(base@)) || e == EntryDataView::Post(
                made_post(title@, details@, post_type@, creator@, announcement, timestamp, base@),
            ) || (exists|i: int|
                0 <= i < index_levels() && e == EntryDataView::Anchor(
                    level_anchor(base@, timestamp, i),
                ))),
        forall|e: EntryDataView|
            final(store)@.chain_set().contains(e) <==> (old(store)@.chain_set().contains(e) || e
                == EntryDataView::Anchor(root_anchor(base@)) || e == EntryDataView::Post(
                made_post(title@, details@, post_type@, creator@, announcement, timestamp, base@),
            ) || (exists|i: int|
                0 <= i < index_levels() && e == EntryDataView::Anchor(
                    level_anchor(base@, timestamp, i),
                ) && !old(store)@.dht_set().contains(
                    EntryDataView::Anchor(level_anchor(base@, timestamp, i)),
                ))),
        forall|e: EdgeView|
            final(store)@.edge_set().contains(e) <==> (old(store)@.edge_set().contains(e) || e
                == post_edge(
                made_post(title@, details@, post_type@, creator@, announcement, timestamp, base@),
            ) || (exists|i: int|
                0 <= i < index_levels() && e == anchor_edge(base@, timestamp, i) && !old(
                    store,
                )@.dht_set().contains(
                    EntryDataView::Anchor(level_anchor(base@, timestamp, i)),
                ))),
{
    let ghost made = made_post(
        title@,
        details@,
        post_type@,
        creator@,
        announcement,
        timestamp,
        base@,
    );
    proof {
        lemma_level_anchors_distinct(base@, timestamp);
    }
    let base_entry = EntryData::Anchor(
        AnchorEntry { base: copy_string(&base), anchor: TimeAnchor::new(0, 0) },
    );
    let ghost pre_root = store@;
    let base_address = store.commit(base_entry);
    proof {
        crate::store::lemma_push_to_set(pre_root.chain, EntryDataView::Anchor(root_anchor(base@)));
        if !pre_root.dht_set().contains(EntryDataView::Anchor(root_anchor(base@))) {
            crate::store::lemma_push_to_set(
                pre_root.dht,
                EntryDataView::Anchor(root_anchor(base@)),
            );
        }
    }

    let post = Post {
        title,
        details,
        post_type,
        creator,
        announcement,
        timestamp,
        base: copy_string(&base),
    };
    assert(post@ == made);
    let ghost pre_post = store@;
    let post_address = store.commit(EntryData::Post(copy_post(&post)));
    proof {
        crate::store::lemma_push_to_set(pre_post.chain, EntryDataView::Post(made));
        if !pre_post.dht_set().contains(EntryDataView::Post(made)) {
            crate::store::lemma_push_to_set(pre_post.dht, EntryDataView::Post(made));
        }
    }

    let spec = time_anchor_spec();
    let path = spec.entry_path_from_timestamp(timestamp);
    proof {
        assert forall|i: int| 0 <= i < index_levels() implies #[trigger] path@[i] == level_anchor(
            base@,
            timestamp,
            i,
        ).anchor by {
            assert(path@[i] == spec.spec_path(timestamp)[i]);
        }
    }

    let mut last_anchor_addr = base_address;
    let mut k: usize = path.len();
    assert(k == 3);
    while k > 0
        invariant
            0 <= k <= 3,
            index_levels() == 3,
            path@.len() == 3,
            forall|i: int|
                0 <= i < 3 ==> #[trigger] path@[i] == level_anchor(base@, timestamp, i).anchor,
            store@.wf(),
            old(store)@.wf(),
            last_anchor_addr@ == if k == 3 {
                EntryDataView::Anchor(root_anchor(base@))
            } else {
                EntryDataView::Anchor(level_anchor(base@, timestamp, k as int))
            },
            forall|e: EntryDataView|
                store@.dht_set().contains(e) <==> (old(store)@.dht_set().contains(e) || e
                    == EntryDataView::Anchor(root_anchor(base@)) || e == EntryDataView::Post(
                    made_post(
                        title@,
                        details@,
                        post_type@,
                        creator@,
                        announcement,
                        timestamp,
                        base@,
                    ),
                ) || (exists|i: int|
                    k <= i < 3 && e == EntryDataView::Anchor(
                        level_anchor(base@, timestamp, i),
                    ))),
            forall|e: EntryDataView|
                store@.chain_set().contains(e) <==> (old(store)@.chain_set().contains(e) || e
                    == EntryDataView::Anchor(root_anchor(base@)) || e == EntryDataView::Post(
                    made_post(
                        title@,
                        details@,
                        post_type@,
                        creator@,
                        announcement,
                        timestamp,
                        base@,
                    ),
                ) || (exists|i: int|
                    k <= i < 3 && e == EntryDataView::Anchor(level_anchor(base@, timestamp, i))
                        && !old(store)@.dht_set().contains(
                        EntryDataView::Anchor(level_anchor(base@, timestamp, i)),
                    ))),
            forall|e: EdgeView|
                store@.edge_set().contains(e) <==> (old(store)@.edge_set().contains(e) || (
                exists|i: int|
                    k <= i < 3 && e == anchor_edge(base@, timestamp, i) && !old(
                        store,
                    )@.dht_set().contains(
                        EntryDataView::Anchor(level_anchor(base@, timestamp, i)),
                    ))),
        decreases k,
    {
        k -= 1;
        let ghost idx = k as int;
        let ghost body_pre = store@;
        let anchor_entry = EntryData::Anchor(
            AnchorEntry { base: copy_string(&base), anchor: path[k] },
        );
        assert(anchor_entry@ == EntryDataView::Anchor(level_anchor(base@, timestamp, idx)));
        proof {
            lemma_level_anchors_distinct(base@, timestamp);
        }
        let known_local = is_in_chain(store, &anchor_entry);
        let known_remote = is_in_dht(store, &anchor_entry);
        assert(known_remote == old(store)@.dht_set().contains(anchor_entry@));
        if !known_local && !known_remote {
            let ghost pre = store@;
            let addr = store.commit(copy_entry_data(&anchor_entry));
            proof {
                crate::store::lemma_push_to_set(pre.chain, anchor_entry@);
                crate::store::lemma_push_to_set(pre.dht, anchor_entry@);
            }
            let tag_entry = AnchorEntry { base: copy_string(&base), anchor: path[k] };
            let ghost pre2 = store@;
            let _ = store.create_edge(
                &last_anchor_addr,
                &addr,
                LinkKind::AnchorToAnchor,
                Option::Some(tag_entry),
            );
            proof {
                if !pre2.edge_set().contains(anchor_edge(base@, timestamp, idx)) {
                    crate::store::lemma_push_to_set(
                        pre2.edges,
                        anchor_edge(base@, timestamp, idx),
                    );
                }
            }
        }
        proof {
            let aedge = anchor_edge(base@, timestamp, idx);
            let aentry = EntryDataView::Anchor(level_anchor(base@, timestamp, idx));
            assert forall|e: EdgeView|
                store@.edge_set().contains(e) == (old(store)@.edge_set().contains(e) || (
                exists|i: int|
                    idx <= i < 3 && e == anchor_edge(base@, timestamp, i) && !old(
                        store,
                    )@.dht_set().contains(
                        EntryDataView::Anchor(level_anchor(base@, timestamp, i)),
                    ))) by {
                if store@.edge_set().contains(e) {
                    if body_pre.edge_set().contains(e) {
                        assert(body_pre.edge_set().contains(e) ==> (old(
                            store,
                        )@.edge_set().contains(e) || (exists|i: int|
                            idx + 1 <= i < 3 && e == anchor_edge(base@, timestamp, i) && !old(
                                store,
                            )@.dht_set().contains(
                                EntryDataView::Anchor(level_anchor(base@, timestamp, i)),
                            ))));
                        if (exists|i: int|
                            idx + 1 <= i < 3 && e == anchor_edge(base@, timestamp, i) && !old(
                                store,
                            )@.dht_set().contains(
                                EntryDataView::Anchor(level_anchor(base@, timestamp, i)),
                            )) {
                            let i = choose|i: int|
                                idx + 1 <= i < 3 && e == anchor_edge(base@, timestamp, i) && !old(
                                    store,
                                )@.dht_set().contains(
                                    EntryDataView::Anchor(level_anchor(base@, timestamp, i)),
                                );
                            assert(idx <= i < 3 && e == anchor_edge(base@, timestamp, i) && !old(
                                store,
                            )@.dht_set().contains(
                                EntryDataView::Anchor(level_anchor(base@, timestamp, i)),
                            ));
                        }
                    } else {
                        assert(e == aedge);
                        assert(!known_local && !known_remote);
                        assert(!old(store)@.dht_set().contains(aentry));
                    }
                } else {
                    if (exists|i: int|
                        idx <= i < 3 && e == anchor_edge(base@, timestamp, i) && !old(
                            store,
                        )@.dht_set().contains(
                            EntryDataView::Anchor(level_anchor(base@, timestamp, i)),
                        )) {
                        let i = choose|i: int|
                            idx <= i < 3 && e == anchor_edge(base@, timestamp, i) && !old(
                                store,
                            )@.dht_set().contains(
                                EntryDataView::Anchor(level_anchor(base@, timestamp, i)),
                            );
                        if i == idx {
                            assert(!old(store)@.dht_set().contains(aentry));
                            assert(!known_remote);
                            assert(!known_local) by {
                                if known_local {
                                    assert(old(store)@.chain_set().contains(aentry));
                                    assert(old(store)@.dht_set().contains(aentry));
                                }
                            }
                            assert(store@.edge_set().contains(aedge));
                            assert(false);
                        } else {
                            assert(body_pre.edge_set().contains(e));
                            assert(store@.edge_set().contains(e));
                            assert(false);
                        }
                    }
                }
            }
        }
        last_anchor_addr = Address { entry: anchor_entry };
    }

    let ghost pre3 = store@;
    let _ = store.create_edge(&last_anchor_addr, &post_address, LinkKind::AnchorToPost, Option::None);
    proof {
        if !pre3.edge_set().contains(post_edge(made)) {
            crate::store::lemma_push_to_set(pre3.edges, post_edge(made));
        }
    }
    Result::Ok(post.with_address(post_address))
}

/// A store with no entries and no edges is indexed.
pub proof fn lemma_empty_store_indexed(s: StoreView)
    requires
        s.wf(),
        s.dht.len() == 0,
        s.edges.len() == 0,
    ensures
        indexed(s),
{
    assert(forall|e: EntryDataView| !s.dht_set().contains(e));
    assert(forall|ed: EdgeView| !s.edge_set().contains(ed));
}

/// A `create` call leaves an indexed store indexed: its contract names
/// exactly the entries and edges it adds, and each one fits the shape.
pub proof fn lemma_create_preserves_indexed(
    pre: StoreView,
    post_s: StoreView,
    base: Seq<char>,
    timestamp: u128,
    p: PostView,
)
    requires
        indexed(pre),
        post_s.wf(),
        p.base == base,
        p.timestamp == timestamp,
        forall|e: EntryDataView|
            post_s.dht_set().contains(e) <==> (pre.dht_set().contains(e) || e
                == EntryDataView::Anchor(root_anchor(base)) || e == EntryDataView::Post(p) || (
            exists|i: int|
                0 <= i < index_levels() && e == EntryDataView::Anchor(
                    level_anchor(base, timestamp, i),
                ))),
        forall|e: EdgeView|
            post_s.edge_set().contains(e) <==> (pre.edge_set().contains(e) || e == post_edge(p)
                || (exists|i: int|
                0 <= i < index_levels() && e == anchor_edge(base, timestamp, i)
                    && !pre.dht_set().contains(
                    EntryDataView::Anchor(level_anchor(base, timestamp, i)),
                ))),
    ensures
        indexed(post_s),
{
    lemma_level_anchors_distinct(base, timestamp);
    assert forall|ed: EdgeView| #![auto]
        post_s.edge_set().contains(ed) implies (if ed.kind == LinkKind::AnchorToAnchor {
        good_anchor_edge(post_s, ed)
    } else {
        good_post_edge(post_s, ed)
    }) by {
        if pre.edge_set().contains(ed) {
            if ed.kind == LinkKind::AnchorToAnchor {
                assert(good_anchor_edge(pre, ed));
                match ed.tag {
                    Option::Some(c) => {
                        let i = choose|i: int|
                            0 <= i < index_levels() && c == level_anchor(
                                c.base,
                                c.anchor.start_timestamp,
                                i,
                            ) && ed.from == EntryDataView::Anchor(
                                parent_anchor(c.base, c.anchor.start_timestamp, i),
                            );
                        assert(good_anchor_edge(post_s, ed));
                    },
                    Option::None => {},
                }
            } else {
                assert(good_post_edge(pre, ed));
            }
        } else if ed == post_edge(p) {
            assert(good_post_edge(post_s, ed));
        } else {
            let i = choose|i: int|
                0 <= i < index_levels() && ed == anchor_edge(base, timestamp, i)
                    && !pre.dht_set().contains(
                    EntryDataView::Anchor(level_anchor(base, timestamp, i)),
                );
            lemma_anchor_edge_norm(base, timestamp, i);
            let c = level_anchor(base, timestamp, i);
            assert(ed == anchor_edge_of(c, i));
            assert(c == level_anchor(c.base, c.anchor.start_timestamp, i));
            assert(post_s.dht_set().contains(EntryDataView::Anchor(c)));
            if i + 1 < index_levels() {
                assert(post_s.dht_set().contains(
                    EntryDataView::Anchor(level_anchor(base, timestamp, i + 1)),
                ));
            } else {
                assert(post_s.dht_set().contains(EntryDataView::Anchor(root_anchor(base))));
            }
            assert(good_anchor_edge(post_s, ed));
        }
    }
    assert forall|e: EntryDataView| #![auto] post_s.dht_set().contains(e) implies entry_good(
        post_s,
        e,
    ) by {
        if pre.dht_set().contains(e) {
            assert(entry_good(pre, e));
            match e {
                EntryDataView::Post(q) => {
                    assert(post_s.edge_set().contains(post_edge(q)));
                },
                EntryDataView::Anchor(a) => {
                    if !is_root_anchor(a) {
                        let i = choose|i: int|
                            0 <= i < index_levels() && a == level_anchor(
                                a.base,
                                a.anchor.start_timestamp,
                                i,
                            ) && pre.edge_set().contains(anchor_edge_of(a, i));
                        assert(post_s.edge_set().contains(anchor_edge_of(a, i)));
                        assert(entry_good(post_s, e));
                    }
                },
            }
        } else if e == EntryDataView::Anchor(root_anchor(base)) {
            assert(is_root_anchor(root_anchor(base)));
        } else if e == EntryDataView::Post(p) {
            assert(post_s.edge_set().contains(post_edge(p)));
        } else {
            let i = choose|i: int|
                0 <= i < index_levels() && e == EntryDataView::Anchor(
                    level_anchor(base, timestamp, i),
                );
            lemma_anchor_edge_norm(base, timestamp, i);
            let a = level_anchor(base, timestamp, i);
            assert(!pre.dht_set().contains(EntryDataView::Anchor(a)));
            assert(post_s.edge_set().contains(anchor_edge(base, timestamp, i)));
            assert(post_s.edge_set().contains(anchor_edge_of(a, i)));
            assert(a == level_anchor(a.base, a.anchor.start_timestamp, i));
            assert(entry_good(post_s, e));
        }
    }
}

/// In an indexed store every visible post has its whole ancestor chain
/// visible, with the linking edges present.
pub proof fn lemma_post_ancestors(s: StoreView, p: PostView, i: int)
    requires
        indexed(s),
        s.dht_set().contains(EntryDataView::Post(p)),
        0 <= i < index_levels(),
    ensures
        s.dht_set().contains(EntryDataView::Anchor(level_anchor(p.base, p.timestamp, i))),
        s.edge_set().contains(anchor_edge(p.base, p.timestamp, i)),
    decreases i,
{
    lemma_level_anchors_distinct(p.base, p.timestamp);
    if i == 0 {
        assert(entry_good(s, EntryDataView::Post(p)));
        assert(s.edge_set().contains(post_edge(p)));
        assert(good_post_edge(s, post_edge(p)));
        assert(s.dht_set().contains(
            EntryDataView::Anchor(level_anchor(p.base, p.timestamp, 0)),
        ));
    } else {
        lemma_post_ancestors(s, p, i - 1);
        let ed = anchor_edge(p.base, p.timestamp, i - 1);
        assert(good_anchor_edge(s, ed));
        assert(ed.from == EntryDataView::Anchor(level_anchor(p.base, p.timestamp, i)));
        assert(s.dht_set().contains(ed.from));
    }
    let a = level_anchor(p.base, p.timestamp, i);
    assert(entry_good(s, EntryDataView::Anchor(a)));
    assert(!is_root_anchor(a)) by {
        assert(index_width(i) > 0);
    }
    let j = choose|j: int|
        0 <= j < index_levels() && a == level_anchor(a.base, a.anchor.start_timestamp, j)
            && s.edge_set().contains(anchor_edge_of(a, j));
    assert(j == i) by {
        if j != i {
            assert(index_width(j) != index_width(i));
        }
    }
    lemma_anchor_edge_norm(p.base, p.timestamp, i);
    assert(s.edge_set().contains(anchor_edge(p.base, p.timestamp, i)));
}

/// Fetches the record at an address: `NotFound` if the store does not
/// hold the address, `DecodeFailure` if the entry there is not a record.
pub fn get(store: &Store, address: Address) -> (r: Result<PostWithAddress, IndexError>)
    ensures
        match r {
            Result::Ok(p) => store@.dht_set().contains(address@) && (address@ matches
            EntryDataView::Post(pv) && p@ == spec_with_address(pv, address@)),
            Result::Err(e) => (e == IndexError::NotFound && !store@.dht_set().contains(address@))
                || (e == IndexError::DecodeFailure && store@.dht_set().contains(address@) && !(
            address@ matches EntryDataView::Post(_))),
        },
{
    match store.get(&address) {
        Option::Some(entry) => match entry {
            EntryData::Post(p) => Result::Ok(p.with_address(address)),
            EntryData::Anchor(_) => Result::Err(IndexError::DecodeFailure),
        },
        Option::None => Result::Err(IndexError::NotFound),
    }
}

} // verus!
