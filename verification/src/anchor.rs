use vstd::prelude::*;

verus! {

/// One time bucket at one level of the anchor tree for some partition:
/// the half-open interval `[start_timestamp, start_timestamp + time_span)`
/// of milliseconds since the epoch.  A `time_span` of zero marks the root
/// anchor of a partition.
#[derive(Clone, Copy, PartialEq, Eq, Structural, Debug)]
pub struct TimeAnchor {
    pub start_timestamp: u128,
    pub time_span: u128,
}

impl TimeAnchor {
    pub fn new(start_timestamp: u128, time_span: u128) -> (r: Self)
        ensures
            r.start_timestamp == start_timestamp,
            r.time_span == time_span,
    {
        Self { start_timestamp, time_span }
    }
}

/// Whether the sequence is sorted in ascending order.
pub open spec fn sorted_ascending(s: Seq<u32>) -> bool {
    forall|i: int, j: int| 0 <= i < j < s.len() ==> s[i] <= s[j]
}

/// The lower bound of the bucket of width `width` containing `timestamp`:
/// the greatest multiple of `width` that is at most `timestamp`.
pub open spec fn spec_bucket_start(timestamp: int, width: int) -> int
    recommends
        width > 0,
        timestamp >= 0,
{
    (timestamp / width) * width
}

/// Defines the bucket widths of the anchor tree: the finest level has
/// width `smallest_time_block` (in milliseconds), and each entry of
/// `divisions` adds one coarser level of width
/// `division * smallest_time_block`.
pub struct TimeAnchorTreeSpec {
    pub smallest_time_block: u128,
    pub divisions: Vec<u32>,
}

impl TimeAnchorTreeSpec {
    /// Number of levels of the tree, the implicit finest level included.
    pub open spec fn num_levels(&self) -> int {
        self.divisions@.len() as int + 1
    }

    /// The bucket width in milliseconds of level `i`; level 0 is the finest.
    pub open spec fn spec_width(&self, i: int) -> int
        recommends
            0 <= i < self.num_levels(),
    {
        if i == 0 {
            self.smallest_time_block as int
        } else {
            self.divisions@[i - 1] as int * self.smallest_time_block as int
        }
    }

    /// Well-formedness: every width is positive and fits in a `u128`,
    /// and the divisions are sorted so that levels grow coarser upward.
    pub open spec fn wf(&self) -> bool {
        &&& self.smallest_time_block > 0
        &&& sorted_ascending(self.divisions@)
        &&& forall|i: int| 0 <= i < self.divisions@.len() ==> 0 < #[trigger] self.divisions@[i]
        &&& forall|i: int|
            0 <= i < self.divisions@.len() ==> (#[trigger] self.divisions@[i]) as int
                * self.smallest_time_block as int <= u128::MAX as int
    }

    /// The anchor path for a timestamp, finest level first, root not
    /// included: at level `i` the bucket of width `spec_width(i)` that
    /// contains the timestamp.
    pub open spec fn spec_path(&self, timestamp_ms: u128) -> Seq<TimeAnchor> {
        Seq::new(
            self.num_levels() as nat,
            |i: int|
                TimeAnchor {
                    start_timestamp: spec_bucket_start(
                        timestamp_ms as int,
                        self.spec_width(i),
                    ) as u128,
                    time_span: self.spec_width(i) as u128,
                },
        )
    }

    pub fn new(smallest_time_block: u128, divisions: Vec<u32>) -> (r: Self)
        ensures
            r.smallest_time_block == smallest_time_block,
            sorted_ascending(r.divisions@),
            r.divisions@.to_multiset() == divisions@.to_multiset(),
            r.divisions@.len() == divisions@.len(),
            sorted_ascending(divisions@) ==> r.divisions@ == divisions@,
    {
        let mut sorted_divisions = divisions;
        sort_ascending_in_place(&mut sorted_divisions);
        proof {
            if sorted_ascending(divisions@) {
                let leq = |a: u32, b: u32| a <= b;
                assert forall|x: u32| #[trigger] leq(x, x) by {}
                assert forall|x: u32, y: u32| #[trigger] leq(x, y) && #[trigger] leq(y, x)
                    implies x == y by {}
                assert forall|x: u32, y: u32, z: u32|
                    #[trigger] leq(x, y) && #[trigger] leq(y, z) implies leq(x, z) by {}
                assert forall|x: u32, y: u32| #[trigger] leq(x, y) || #[trigger] leq(y, x) by {}
                assert(vstd::relations::total_ordering(leq));
                assert(vstd::relations::sorted_by(sorted_divisions@, leq));
                assert(vstd::relations::sorted_by(divisions@, leq));
                vstd::seq_lib::lemma_sorted_unique(sorted_divisions@, divisions@, leq);
            }
        }
        Self { smallest_time_block, divisions: sorted_divisions }
    }

    /// Given a timestamp returns the path in the anchor tree where
    /// something with this timestamp can be found or should be placed.
    /// The path goes from the leaves up and the root is not included.
    pub fn entry_path_from_timestamp(&self, timestamp_ms: u128) -> (r: Vec<TimeAnchor>)
        requires
            self.wf(),
        ensures
            r@ == self.spec_path(timestamp_ms),
    {
        let mut result: Vec<TimeAnchor> = Vec::new();
        let w0 = self.smallest_time_block;
        let b0 = timestamp_ms / w0;
        proof {
            lemma_bucket_start_bounds(timestamp_ms as int, w0 as int);
        }
        result.push(TimeAnchor::new(b0 * w0, w0));
        let mut i: usize = 0;
        while i < self.divisions.len()
            invariant
                self.wf(),
                0 <= i <= self.divisions@.len(),
                result@.len() == i + 1,
                forall|j: int|
                    0 <= j < result@.len() ==> result@[j] == self.spec_path(timestamp_ms)[j],
            decreases self.divisions@.len() - i,
        {
            let d = self.divisions[i] as u128;
            assert(d * self.smallest_time_block <= u128::MAX) by {
                assert(self.divisions@[i as int] as int * self.smallest_time_block as int
                    <= u128::MAX as int);
            }
            let w = d * self.smallest_time_block;
            assert(w > 0) by (nonlinear_arith)
                requires
                    d > 0,
                    self.smallest_time_block > 0,
                    w == d * self.smallest_time_block,
            ;
            let b = timestamp_ms / w;
            proof {
                lemma_bucket_start_bounds(timestamp_ms as int, w as int);
            }
            result.push(TimeAnchor::new(b * w, w));
            i += 1;
        }
        proof {
            assert(result@ =~= self.spec_path(timestamp_ms));
        }
        result
    }
}

/// The bucket that contains a timestamp starts at or before it and ends
/// strictly after it.
pub proof fn lemma_bucket_start_bounds(timestamp: int, width: int)
    requires
        width > 0,
        timestamp >= 0,
    ensures
        0 <= spec_bucket_start(timestamp, width),
        spec_bucket_start(timestamp, width) <= timestamp,
        timestamp < spec_bucket_start(timestamp, width) + width,
        spec_bucket_start(timestamp, width) == (timestamp / width) * width,
{
    assert(0 <= (timestamp / width) * width <= timestamp && timestamp < (timestamp / width)
        * width + width) by (nonlinear_arith)
        requires
            width > 0,
            timestamp >= 0,
    ;
}

/// A multiple of the width that reaches up to `timestamp` is exactly the
/// bucket start: buckets are uniquely determined.
pub proof fn lemma_bucket_unique(timestamp: int, width: int, m: int)
    requires
        width > 0,
        timestamp >= 0,
        m % width == 0,
        m <= timestamp < m + width,
    ensures
        spec_bucket_start(timestamp, width) == m,
{
    assert((timestamp / width) * width == m) by (nonlinear_arith)
        requires
            width > 0,
            timestamp >= 0,
            m % width == 0,
            m <= timestamp < m + width,
    ;
}

/// A bucket start is aligned: it is a multiple of the width.
pub proof fn lemma_bucket_aligned(timestamp: int, width: int)
    requires
        width > 0,
        timestamp >= 0,
    ensures
        spec_bucket_start(timestamp, width) % width == 0,
        spec_bucket_start(spec_bucket_start(timestamp, width), width) == spec_bucket_start(
            timestamp,
            width,
        ),
{
    assert(((timestamp / width) * width) % width == 0) by (nonlinear_arith)
        requires
            width > 0,
            timestamp >= 0,
    ;
    lemma_bucket_start_bounds(timestamp, width);
    lemma_bucket_unique(
        spec_bucket_start(timestamp, width),
        width,
        spec_bucket_start(timestamp, width),
    );
}

/// Taking the bucket at a fine width and then at a coarser width that it
/// divides gives the same result as taking the coarse bucket directly:
/// buckets nest.
pub proof fn lemma_nested_buckets(timestamp: int, fine: int, coarse: int)
    requires
        fine > 0,
        coarse > 0,
        coarse % fine == 0,
        timestamp >= 0,
    ensures
        spec_bucket_start(spec_bucket_start(timestamp, fine), coarse) == spec_bucket_start(
            timestamp,
            coarse,
        ),
{
    let b1 = spec_bucket_start(timestamp, fine);
    let b2 = spec_bucket_start(timestamp, coarse);
    lemma_bucket_start_bounds(timestamp, fine);
    lemma_bucket_start_bounds(timestamp, coarse);
    lemma_bucket_aligned(timestamp, coarse);
    let k = coarse / fine;
    assert(coarse == k * fine) by (nonlinear_arith)
        requires
            fine > 0,
            coarse % fine == 0,
            k == coarse / fine,
    ;
    let m = (timestamp / coarse) * k;
    assert(b2 == m * fine) by (nonlinear_arith)
        requires
            b2 == (timestamp / coarse) * coarse,
            coarse == k * fine,
            m == (timestamp / coarse) * k,
    ;
    assert(m <= timestamp / fine) by (nonlinear_arith)
        requires
            fine > 0,
            m * fine <= timestamp,
    ;
    assert(m * fine <= (timestamp / fine) * fine) by (nonlinear_arith)
        requires
            fine > 0,
            m <= timestamp / fine,
    ;
    lemma_bucket_unique(b1, coarse, b2);
}

/// Two distinct multiples of a width are at least that width apart.
pub proof fn lemma_multiple_gap(a: int, b: int, width: int)
    requires
        width > 0,
        a % width == 0,
        b % width == 0,
        a < b,
    ensures
        a + width <= b,
{
    assert(a + width <= b) by (nonlinear_arith)
        requires
            width > 0,
            a % width == 0,
            b % width == 0,
            a < b,
    ;
}

/// Two aligned buckets are nested or disjoint: the finer interval lies
/// inside the coarser one, or the two do not overlap at all.
pub proof fn lemma_aligned_dichotomy(s1: int, w1: int, s2: int, w2: int)
    requires
        w1 > 0,
        w2 > 0,
        w2 % w1 == 0,
        s1 >= 0,
        s2 >= 0,
        s1 % w1 == 0,
        s2 % w2 == 0,
    ensures
        s1 + w1 <= s2 || s2 + w2 <= s1 || (s2 <= s1 && s1 + w1 <= s2 + w2),
{
    let k = w2 / w1;
    let q = s2 / w2;
    assert(w2 == k * w1) by (nonlinear_arith)
        requires
            w1 > 0,
            w2 % w1 == 0,
            k == w2 / w1,
    ;
    assert(s2 == q * w2) by (nonlinear_arith)
        requires
            w2 > 0,
            s2 % w2 == 0,
            q == s2 / w2,
    ;
    assert(s2 == (q * k) * w1) by (nonlinear_arith)
        requires
            s2 == q * w2,
            w2 == k * w1,
    ;
    assert(s2 % w1 == 0) by (nonlinear_arith)
        requires
            w1 > 0,
            s2 == (q * k) * w1,
    ;
    assert(s2 + w2 == (q * k + k) * w1) by (nonlinear_arith)
        requires
            s2 == (q * k) * w1,
            w2 == k * w1,
    ;
    assert((s2 + w2) % w1 == 0) by (nonlinear_arith)
        requires
            w1 > 0,
            s2 + w2 == (q * k + k) * w1,
    ;
    if s2 + w2 <= s1 {
    } else if s1 + w1 <= s2 {
    } else {
        if s1 < s2 {
            lemma_multiple_gap(s1, s2, w1);
            assert(false);
        }
        if s2 + w2 < s1 + w1 {
            lemma_multiple_gap(s1, s2 + w2, w1);
            assert(false);
        }
    }
}

fn sort_ascending_in_place(v: &mut Vec<u32>)
    ensures
        sorted_ascending(final(v)@),
        final(v)@.to_multiset() == old(v)@.to_multiset(),
        final(v)@.len() == old(v)@.len(),
{
    let ghost orig = v@;
    let mut i: usize = 1;
    while i < v.len()
        invariant
            1 <= i,
            v@.len() == orig.len(),
            v@.to_multiset() == orig.to_multiset(),
            forall|a: int, b: int| 0 <= a < b < i && b < v@.len() ==> v@[a] <= v@[b],
        decreases v@.len() - i,
    {
        let mut j: usize = i;
        while j > 0 && v[j - 1] > v[j]
            invariant
                0 <= j <= i < v@.len(),
                v@.len() == orig.len(),
                v@.to_multiset() == orig.to_multiset(),
                forall|a: int, b: int|
                    0 <= a < b <= i && b < v@.len() && b != j ==> v@[a] <= v@[b],
            decreases j,
        {
            let x = v[j - 1];
            let y = v[j];
            let ghost before = v@;
            v.set(j - 1, y);
            v.set(j, x);
            proof {
                lemma_swap_preserves_multiset(before, v@, j as int - 1, j as int);
            }
            j -= 1;
        }
        i += 1;
    }
}

/// Swapping two elements of a sequence leaves its multiset unchanged.
proof fn lemma_swap_preserves_multiset(s: Seq<u32>, t: Seq<u32>, a: int, b: int)
    requires
        0 <= a < b < s.len(),
        t == s.update(a, s[b]).update(b, s[a]),
    ensures
        t.to_multiset() == s.to_multiset(),
{
    broadcast use vstd::seq_lib::group_to_multiset_ensures;

    let s1 = s.update(a, s[b]);
    assert(s1[b] == s[b]);
    assert(s.to_multiset().count(s[a]) > 0) by {
        assert(s.contains(s[a]));
    }
    assert(s1.to_multiset() == s.to_multiset().insert(s[b]).remove(s[a]));
    assert(t.to_multiset() == s1.to_multiset().insert(s[a]).remove(s1[b]));
    assert(t.to_multiset() =~= s.to_multiset());
}

} // verus!
