use vstd::prelude::*;
use crate::anchor::TimeAnchor;
use crate::post::{Post, PostView, copy_post, copy_string, post_eq};

verus! {

/// The committed form of a time bucket: the anchor together with the
/// partition ("base") it belongs to.  The root anchor of a partition has
/// `time_span == 0` and `start_timestamp == 0`.
pub struct AnchorEntry {
    pub base: String,
    pub anchor: TimeAnchor,
}

/// The mathematical value of an `AnchorEntry`.
pub struct AnchorEntryView {
    pub base: Seq<char>,
    pub anchor: TimeAnchor,
}

impl View for AnchorEntry {
    type V = AnchorEntryView;

    open spec fn view(&self) -> AnchorEntryView {
        AnchorEntryView { base: self.base@, anchor: self.anchor }
    }
}

/// Copies an anchor entry, keeping its value.
pub fn copy_anchor_entry(a: &AnchorEntry) -> (r: AnchorEntry)
    ensures
        r@ == a@,
{
    AnchorEntry { base: copy_string(&a.base), anchor: a.anchor }
}

/// Whether two anchor entries hold the same value.
pub fn anchor_entry_eq(a: &AnchorEntry, b: &AnchorEntry) -> (r: bool)
    ensures
        r == (a@ == b@),
{
    let r = a.base == b.base && a.anchor == b.anchor;
    proof {
        if r {
            assert(a@ == b@);
        }
    }
    r
}

/// An entry of the content-addressed store: either a time anchor or a
/// post record.
pub enum EntryData {
    Anchor(AnchorEntry),
    Post(Post),
}

/// The mathematical value of an `EntryData`.
pub enum EntryDataView {
    Anchor(AnchorEntryView),
    Post(PostView),
}

impl View for EntryData {
    type V = EntryDataView;

    open spec fn view(&self) -> EntryDataView {
        match self {
            EntryData::Anchor(a) => EntryDataView::Anchor(a@),
            EntryData::Post(p) => EntryDataView::Post(p@),
        }
    }
}

/// Copies an entry, keeping its value.
pub fn copy_entry_data(e: &EntryData) -> (r: EntryData)
    ensures
        r@ == e@,
{
    match e {
        EntryData::Anchor(a) => EntryData::Anchor(copy_anchor_entry(a)),
        EntryData::Post(p) => EntryData::Post(copy_post(p)),
    }
}

/// Whether two entries hold the same value.
pub fn entry_data_eq(a: &EntryData, b: &EntryData) -> (r: bool)
    ensures
        r == (a@ == b@),
{
    match (a, b) {
        (EntryData::Anchor(x), EntryData::Anchor(y)) => anchor_entry_eq(x, y),
        (EntryData::Post(x), EntryData::Post(y)) => post_eq(x, y),
        _ => false,
    }
}

/// The deterministic address of an entry.  The store is content
/// addressed: the address is a pure function of the entry's value, so
/// two writers that build the same entry obtain the same address.  The
/// model carries the entry value itself as the address.
pub struct Address {
    pub entry: EntryData,
}

impl View for Address {
    type V = EntryDataView;

    open spec fn view(&self) -> EntryDataView {
        self.entry@
    }
}

/// The two kinds of directed edge kept by the store.
#[derive(Clone, Copy, PartialEq, Eq, Structural, Debug)]
pub enum LinkKind {
    AnchorToAnchor,
    AnchorToPost,
}

/// A directed edge of the graph store.  An anchor-to-anchor edge carries
/// the child anchor entry as its tag, so a traversal can follow the tree
/// without fetching each child.
pub struct Edge {
    pub from: EntryData,
    pub kind: LinkKind,
    pub to: EntryData,
    pub tag: Option<AnchorEntry>,
}

/// The mathematical value of an `Edge`.
pub struct EdgeView {
    pub from: EntryDataView,
    pub kind: LinkKind,
    pub to: EntryDataView,
    pub tag: Option<AnchorEntryView>,
}

impl View for Edge {
    type V = EdgeView;

    open spec fn view(&self) -> EdgeView {
        EdgeView {
            from: self.from@,
            kind: self.kind,
            to: self.to@,
            tag: match self.tag {
                Option::Some(ref a) => Option::Some(a@),
                Option::None => Option::None,
            },
        }
    }
}

/// Copies an edge, keeping its value.
pub fn copy_edge(e: &Edge) -> (r: Edge)
    ensures
        r@ == e@,
{
    Edge {
        from: copy_entry_data(&e.from),
        kind: e.kind,
        to: copy_entry_data(&e.to),
        tag: match &e.tag {
            Option::Some(a) => Option::Some(copy_anchor_entry(a)),
            Option::None => Option::None,
        },
    }
}

/// Whether two edges hold the same value.
pub fn edge_eq(a: &Edge, b: &Edge) -> (r: bool)
    ensures
        r == (a@ == b@),
{
    let tags_equal = match (&a.tag, &b.tag) {
        (Option::Some(x), Option::Some(y)) => anchor_entry_eq(x, y),
        (Option::None, Option::None) => true,
        _ => false,
    };
    let r = entry_data_eq(&a.from, &b.from) && a.kind == b.kind && entry_data_eq(&a.to, &b.to)
        && tags_equal;
    proof {
        if r {
            assert(a@ == b@);
        }
    }
    r
}

/// The errors this subsystem reports: an address absent from the store,
/// a failure surfaced by the store itself, or corrupt edge metadata.
#[derive(Clone, Copy, PartialEq, Eq, Structural, Debug)]
pub enum IndexError {
    NotFound,
    StoreFailure,
    DecodeFailure,
}

/// The mathematical value of a `Store`: the local commit history, the
/// shared entry arena, and the edge arena.
pub struct StoreView {
    pub chain: Seq<EntryDataView>,
    pub dht: Seq<EntryDataView>,
    pub edges: Seq<EdgeView>,
}

impl StoreView {
    /// The set of entries committed by this process.
    pub open spec fn chain_set(self) -> Set<EntryDataView> {
        self.chain.to_set()
    }

    /// The set of entries visible in the shared store.
    pub open spec fn dht_set(self) -> Set<EntryDataView> {
        self.dht.to_set()
    }

    /// The set of edges visible in the shared store.
    pub open spec fn edge_set(self) -> Set<EdgeView> {
        self.edges.to_set()
    }

    /// Basic well-formedness: locally committed entries are visible, and
    /// the shared arenas hold no duplicates (identical content aliases to
    /// one address, so committing it twice is a no-op).
    pub open spec fn wf(self) -> bool {
        &&& forall|e: EntryDataView| self.chain_set().contains(e) ==> self.dht_set().contains(e)
        &&& forall|i: int, j: int| 0 <= i < j < self.dht.len() ==> self.dht[i] != self.dht[j]
        &&& forall|i: int, j: int| 0 <= i < j < self.edges.len() ==> self.edges[i] != self.edges[j]
    }
}

/// An in-memory content-addressed graph store: an entry arena and an
/// edge arena, both keyed by deterministic content addresses, plus the
/// local history of what this process committed.
pub struct Store {
    chain: Vec<EntryData>,
    dht: Vec<EntryData>,
    edges: Vec<Edge>,
}

impl View for Store {
    type V = StoreView;

    closed spec fn view(&self) -> StoreView {
        StoreView {
            chain: self.chain@.map_values(|e: EntryData| e@),
            dht: self.dht@.map_values(|e: EntryData| e@),
            edges: self.edges@.map_values(|e: Edge| e@),
        }
    }
}

impl Store {
    /// An empty store.
    pub fn new() -> (s: Store)
        ensures
            s@.chain == Seq::<EntryDataView>::empty(),
            s@.dht == Seq::<EntryDataView>::empty(),
            s@.edges == Seq::<EdgeView>::empty(),
            s@.wf(),
    {
        let s = Store { chain: Vec::new(), dht: Vec::new(), edges: Vec::new() };
        proof {
            assert(s@.chain =~= Seq::<EntryDataView>::empty());
            assert(s@.dht =~= Seq::<EntryDataView>::empty());
            assert(s@.edges =~= Seq::<EdgeView>::empty());
        }
        s
    }

    fn dht_contains(&self, entry: &EntryData) -> (r: bool)
        ensures
            r == self@.dht_set().contains(entry@),
    {
        let mut i: usize = 0;
        while i < self.dht.len()
            invariant
                0 <= i <= self.dht.len(),
                self@.dht.len() == self.dht.len(),
                forall|j: int| 0 <= j < i ==> self@.dht[j] != entry@,
            decreases self.dht.len() - i,
        {
            if entry_data_eq(&self.dht[i], entry) {
                assert(self@.dht[i as int] == entry@);
                assert(self@.dht.contains(entry@));
                return true;
            }
            i += 1;
        }
        assert(!self@.dht.contains(entry@));
        false
    }

    fn chain_contains(&self, entry: &EntryData) -> (r: bool)
        ensures
            r == self@.chain_set().contains(entry@),
    {
        let mut i: usize = 0;
        while i < self.chain.len()
            invariant
                0 <= i <= self.chain.len(),
                self@.chain.len() == self.chain.len(),
                forall|j: int| 0 <= j < i ==> self@.chain[j] != entry@,
            decreases self.chain.len() - i,
        {
            if entry_data_eq(&self.chain[i], entry) {
                assert(self@.chain[i as int] == entry@);
                assert(self@.chain.contains(entry@));
                return true;
            }
            i += 1;
        }
        assert(!self@.chain.contains(entry@));
        false
    }

    fn edges_contain(&self, edge: &Edge) -> (r: bool)
        ensures
            r == self@.edge_set().contains(edge@),
    {
        let mut i: usize = 0;
        while i < self.edges.len()
            invariant
                0 <= i <= self.edges.len(),
                self@.edges.len() == self.edges.len(),
                forall|j: int| 0 <= j < i ==> self@.edges[j] != edge@,
            decreases self.edges.len() - i,
        {
            if edge_eq(&self.edges[i], edge) {
                assert(self@.edges[i as int] == edge@);
                assert(self@.edges.contains(edge@));
                return true;
            }
            i += 1;
        }
        assert(!self@.edges.contains(edge@));
        false
    }

    /// Commits an entry: it is appended to the local history, becomes
    /// visible in the shared store if it was not already (identical
    /// content aliases to the same address), and its deterministic
    /// address is returned.
    pub fn commit(&mut self, entry: EntryData) -> (a: Address)
        ensures
            a@ == entry@,
            final(self)@.chain == old(self)@.chain.push(entry@),
            final(self)@.edges == old(self)@.edges,
            final(self)@.dht == if old(self)@.dht_set().contains(entry@) {
                old(self)@.dht
            } else {
                old(self)@.dht.push(entry@)
            },
            old(self)@.wf() ==> final(self)@.wf(),
    {
        let in_dht = self.dht_contains(&entry);
        let ghost pre = self@;
        self.chain.push(copy_entry_data(&entry));
        proof {
            assert(self@.chain =~= pre.chain.push(entry@));
            assert(self@.dht =~= pre.dht);
            assert(self@.edges =~= pre.edges);
        }
        if !in_dht {
            let ghost mid = self@;
            self.dht.push(copy_entry_data(&entry));
            proof {
                assert(self@.dht =~= mid.dht.push(entry@));
                assert(self@.chain =~= mid.chain);
                assert(self@.edges =~= mid.edges);
            }
        }
        proof {
            if old(self)@.wf() {
                lemma_commit_preserves_wf(old(self)@, self@, entry@);
            }
        }
        Address { entry }
    }

    /// Fetches the entry at an address, or reports that the shared store
    /// does not hold it.
    pub fn get(&self, address: &Address) -> (r: Option<EntryData>)
        ensures
            match r {
                Option::Some(e) => e@ == address@ && self@.dht_set().contains(address@),
                Option::None => !self@.dht_set().contains(address@),
            },
    {
        if self.dht_contains(&address.entry) {
            Option::Some(copy_entry_data(&address.entry))
        } else {
            Option::None
        }
    }

    /// Records a directed edge.  Identical edges alias to one edge: the
    /// edge arena never holds duplicates.
    pub fn create_edge(&mut self, from: &Address, to: &Address, kind: LinkKind, tag: Option<
        AnchorEntry,
    >) -> (e: Ghost<EdgeView>)
        ensures
            e@ == (EdgeView {
                from: from@,
                kind: kind,
                to: to@,
                tag: match tag {
                    Option::Some(a) => Option::Some(a@),
                    Option::None => Option::None,
                },
            }),
            final(self)@.chain == old(self)@.chain,
            final(self)@.dht == old(self)@.dht,
            final(self)@.edges == if old(self)@.edge_set().contains(e@) {
                old(self)@.edges
            } else {
                old(self)@.edges.push(e@)
            },
            old(self)@.wf() ==> final(self)@.wf(),
    {
        let edge = Edge {
            from: copy_entry_data(&from.entry),
            kind,
            to: copy_entry_data(&to.entry),
            tag,
        };
        let ghost ev = edge@;
        let present = self.edges_contain(&edge);
        let ghost pre = self@;
        if !present {
            self.edges.push(edge);
            proof {
                assert(self@.edges =~= pre.edges.push(ev));
                assert(self@.chain =~= pre.chain);
                assert(self@.dht =~= pre.dht);
                if pre.wf() {
                    assert forall|i: int, j: int|
                        0 <= i < j < self@.edges.len() implies self@.edges[i]
                        != self@.edges[j] by {
                        if j == self@.edges.len() - 1 {
                            assert(pre.edges[i] == self@.edges[i]);
                            assert(!pre.edge_set().contains(ev));
                            assert(pre.edges.contains(pre.edges[i]));
                        }
                    }
                    assert(self@.chain_set() == pre.chain_set());
                    assert(self@.dht_set() == pre.dht_set());
                    assert forall|x: EntryDataView|
                        self@.chain_set().contains(x) implies self@.dht_set().contains(x) by {
                        assert(pre.chain_set().contains(x));
                    }
                    assert(self@.wf());
                }
            }
        }
        Ghost(ev)
    }
}

proof fn lemma_commit_preserves_wf(pre: StoreView, post: StoreView, entry: EntryDataView)
    requires
        pre.wf(),
        post.chain == pre.chain.push(entry),
        post.edges == pre.edges,
        post.dht == if pre.dht_set().contains(entry) {
            pre.dht
        } else {
            pre.dht.push(entry)
        },
    ensures
        post.wf(),
{
    assert forall|e: EntryDataView| post.chain_set().contains(e) implies post.dht_set().contains(
        e,
    ) by {
        let i = choose|i: int| 0 <= i < post.chain.len() && post.chain[i] == e;
        if i < pre.chain.len() {
            assert(pre.chain.contains(e));
            assert(pre.dht_set().contains(e));
            let j = choose|j: int| 0 <= j < pre.dht.len() && pre.dht[j] == e;
            assert(post.dht[j] == e);
            assert(post.dht.contains(e));
        } else {
            assert(e == entry);
            if pre.dht_set().contains(entry) {
                let j = choose|j: int| 0 <= j < pre.dht.len() && pre.dht[j] == e;
                assert(post.dht[j] == e);
                assert(post.dht.contains(e));
            } else {
                assert(post.dht[post.dht.len() - 1] == e);
                assert(post.dht.contains(e));
            }
        }
    }
    assert forall|i: int, j: int| 0 <= i < j < post.dht.len() implies post.dht[i]
        != post.dht[j] by {
        if j == pre.dht.len() {
            assert(post.dht[i] == pre.dht[i]);
            assert(pre.dht.contains(pre.dht[i]));
        }
    }
}

impl Store {
    /// Lists the outgoing edges of the given kind at an address: every
    /// returned edge is in the store and starts there, and every such
    /// edge of the store is returned, without duplicates.
    #[verifier::rlimit(40)]
    pub fn get_links(&self, from: &Address, kind: LinkKind) -> (r: Vec<Edge>)
        ensures
            forall|i: int|
                0 <= i < r@.len() ==> (#[trigger] r@[i]@).from == from@ && r@[i]@.kind == kind
                    && self@.edge_set().contains(r@[i]@),
            forall|ed: EdgeView| #![auto]
                self@.edge_set().contains(ed) && ed.from == from@ && ed.kind == kind
                    ==> exists|i: int| 0 <= i < r@.len() && r@[i]@ == ed,
            self@.wf() ==> forall|i: int, j: int|
                0 <= i < j < r@.len() ==> r@[i]@ != r@[j]@,
    {
        let mut result: Vec<Edge> = Vec::new();
        let ghost mut srcs: Seq<int> = Seq::empty();
        let mut i: usize = 0;
        while i < self.edges.len()
            invariant
                0 <= i <= self.edges.len(),
                self@.edges.len() == self.edges.len(),
                srcs.len() == result@.len(),
                forall|k: int|
                    0 <= k < result@.len() ==> 0 <= #[trigger] srcs[k] < i && result@[k]@
                        == self@.edges[srcs[k]],
                forall|k1: int, k2: int| 0 <= k1 < k2 < result@.len() ==> srcs[k1] < srcs[k2],
                forall|k: int|
                    0 <= k < result@.len() ==> (#[trigger] result@[k]@).from == from@
                        && result@[k]@.kind == kind,
                forall|j: int| #![auto]
                    0 <= j < i && self@.edges[j].from == from@ && self@.edges[j].kind == kind
                        ==> exists|k: int| 0 <= k < result@.len() && srcs[k] == j,
            decreases self.edges.len() - i,
        {
            let ghost srcs0 = srcs;
            let ghost res0 = result@;
            let from_here = entry_data_eq(&self.edges[i].from, &from.entry);
            let ghost hit = from_here && self@.edges[i as int].kind == kind;
            if from_here && self.edges[i].kind == kind {
                result.push(copy_edge(&self.edges[i]));
                proof {
                    srcs = srcs.push(i as int);
                    assert(srcs[srcs.len() - 1] == i as int);
                    assert(result@[result@.len() - 1]@ == self@.edges[i as int]);
                }
            }
            proof {
                assert forall|j: int| #![auto]
                    0 <= j < i + 1 && self@.edges[j].from == from@ && self@.edges[j].kind
                        == kind implies exists|k: int| 0 <= k < result@.len() && srcs[k]
                    == j by {
                    if j == i {
                        assert(hit);
                        assert(srcs.len() == result@.len());
                        assert(0 <= result@.len() - 1 < result@.len());
                        assert(srcs[result@.len() - 1] == j);
                    } else {
                        let k = choose|k: int| 0 <= k < res0.len() && srcs0[k] == j;
                        assert(0 <= k < result@.len() && srcs[k] == j);
                    }
                }
            }
            i += 1;
        }
        proof {
            assert forall|k: int|
                0 <= k < result@.len() implies (#[trigger] result@[k]@).from == from@
                && result@[k]@.kind == kind && self@.edge_set().contains(result@[k]@) by {
                assert(result@[k]@ == self@.edges[srcs[k]]);
                assert(self@.edges.contains(self@.edges[srcs[k]]));
            }
            assert forall|ed: EdgeView| #![auto]
                self@.edge_set().contains(ed) && ed.from == from@ && ed.kind == kind implies
                exists|k: int| 0 <= k < result@.len() && result@[k]@ == ed by {
                let j = choose|j: int| 0 <= j < self@.edges.len() && self@.edges[j] == ed;
                assert(self@.edges[j].from == from@ && self@.edges[j].kind == kind);
                let k = choose|k: int| 0 <= k < result@.len() && srcs[k] == j;
                assert(result@[k]@ == ed);
            }
            if self@.wf() {
                assert forall|a: int, b: int| 0 <= a < b < result@.len() implies result@[a]@
                    != result@[b]@ by {
                    assert(result@[a]@ == self@.edges[srcs[a]]);
                    assert(result@[b]@ == self@.edges[srcs[b]]);
                    assert(srcs[a] < srcs[b]);
                }
            }
        }
        result
    }
}

/// Appending one element to a sequence adds exactly that element to the
/// set of its elements.
pub proof fn lemma_push_to_set<A>(s: Seq<A>, x: A)
    ensures
        s.push(x).to_set() == s.to_set().insert(x),
{
    assert forall|e: A| s.push(x).to_set().contains(e) implies s.to_set().insert(x).contains(
        e,
    ) by {
        let i = choose|i: int| 0 <= i < s.push(x).len() && s.push(x)[i] == e;
        if i < s.len() {
            assert(s[i] == e);
            assert(s.contains(e));
        }
    }
    assert forall|e: A| s.to_set().insert(x).contains(e) implies s.push(x).to_set().contains(
        e,
    ) by {
        if e == x {
            assert(s.push(x)[s.len() as int] == e);
            assert(s.push(x).contains(e));
        } else {
            let i = choose|i: int| 0 <= i < s.len() && s[i] == e;
            assert(s.push(x)[i] == e);
            assert(s.push(x).contains(e));
        }
    }
    assert(s.push(x).to_set() =~= s.to_set().insert(x));
}

/// Whether an identical entry was already committed by this process.
/// Checking the local history before committing prevents duplicates in
/// the chain.
pub fn is_in_chain(store: &Store, entry: &EntryData) -> (r: bool)
    ensures
        r == store@.chain_set().contains(entry@),
{
    store.chain_contains(entry)
}

/// Whether an identical entry is visible in the shared store.  Unlike the
/// local history this is not authoritative: an entry that is not seen may
/// still exist somewhere not yet replicated here.
pub fn is_in_dht(store: &Store, entry: &EntryData) -> (r: bool)
    ensures
        r == store@.dht_set().contains(entry@),
{
    store.dht_contains(entry)
}

/// Commits the entry unless this process already committed an identical
/// one; either way returns its deterministic address.
pub fn commit_if_not_in_chain(store: &mut Store, entry: &EntryData) -> (a: Address)
    ensures
        a@ == entry@,
        if old(store)@.chain_set().contains(entry@) {
            final(store)@ == old(store)@
        } else {
            final(store)@.chain == old(store)@.chain.push(entry@) && final(store)@.edges == old(
                store,
            )@.edges && final(store)@.dht == if old(store)@.dht_set().contains(entry@) {
                old(store)@.dht
            } else {
                old(store)@.dht.push(entry@)
            }
        },
        old(store)@.wf() ==> final(store)@.wf(),
{
    if is_in_chain(store, entry) {
        Address { entry: copy_entry_data(entry) }
    } else {
        store.commit(copy_entry_data(entry))
    }
}

} // verus!
