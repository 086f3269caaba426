//! Start-of-packet markers: the first position after which the last `len` bytes are all
//! different, found with a sliding window of letter counts.
use vstd::prelude::*;

verus! {

/// How many times `b` occurs in `w`.
pub open spec fn occ(w: Seq<u8>, b: u8) -> nat
    decreases w.len(),
{
    if w.len() == 0 {
        0
    } else {
        occ(w.drop_last(), b) + if w.last() == b { 1nat } else { 0nat }
    }
}

/// How many of the first `n` entries of `counts` are not zero.
pub open spec fn nonzero(counts: Seq<u8>, n: int) -> nat
    decreases n,
{
    if n <= 0 {
        0
    } else {
        nonzero(counts, n - 1) + if counts[n - 1] > 0 { 1nat } else { 0nat }
    }
}

pub open spec fn is_lower(b: u8) -> bool {
    97 <= b <= 122
}

/// `counts` holds, for each letter, how many times it occurs in `w`.
pub open spec fn counts_window(counts: Seq<u8>, w: Seq<u8>) -> bool {
    &&& counts.len() == 26
    &&& forall|c: int| 0 <= c < 26 ==> #[trigger] counts[c] == occ(w, (c + 97) as u8)
}

/// `i` ends a marker: the `len` bytes before position `i` are all different.
pub open spec fn is_marker(data: Seq<u8>, len: int, i: int) -> bool {
    len <= i <= data.len() && data.subrange(i - len, i).no_duplicates()
}

proof fn lemma_nonzero_update(counts: Seq<u8>, n: int, i: int, v: u8)
    requires
        0 <= i < n <= counts.len(),
    ensures
        nonzero(counts.update(i, v), n) + (if counts[i] > 0 { 1int } else { 0int }) == nonzero(counts, n) + (if v
            > 0 { 1int } else { 0int }),
    decreases n,
{
    if n - 1 > i {
        lemma_nonzero_update(counts, n - 1, i, v);
    } else {
        lemma_nonzero_same(counts, counts.update(i, v), n - 1);
    }
}

proof fn lemma_nonzero_same(a: Seq<u8>, b: Seq<u8>, n: int)
    requires
        0 <= n <= a.len(),
        n <= b.len(),
        forall|c: int| 0 <= c < n ==> a[c] == b[c],
    ensures
        nonzero(a, n) == nonzero(b, n),
    decreases n,
{
    if n > 0 {
        lemma_nonzero_same(a, b, n - 1);
    }
}

proof fn lemma_occ_front(w: Seq<u8>, b: u8)
    requires
        w.len() > 0,
    ensures
        occ(w, b) == occ(w.drop_first(), b) + if w[0] == b { 1nat } else { 0nat },
    decreases w.len(),
{
    if w.len() > 1 {
        lemma_occ_front(w.drop_last(), b);
        assert(w.drop_last().drop_first() =~= w.drop_first().drop_last());
        assert(w.drop_last()[0] == w[0]);
        assert(w.drop_first().last() == w.last());
    } else {
        assert(w.drop_first().len() == 0);
        assert(w.drop_last().len() == 0);
        assert(occ(w.drop_first(), b) == 0);
        assert(occ(w.drop_last(), b) == 0);
    }
}

proof fn lemma_occ_contains(w: Seq<u8>, b: u8)
    ensures
        (occ(w, b) > 0) == w.contains(b),
    decreases w.len(),
{
    if w.len() > 0 {
        lemma_occ_contains(w.drop_last(), b);
        if w.drop_last().contains(b) {
            let j = choose|j: int| 0 <= j < w.drop_last().len() && w.drop_last()[j] == b;
            assert(w[j] == b);
        }
        if w.contains(b) {
            let j = choose|j: int| 0 <= j < w.len() && w[j] == b;
            if j < w.len() - 1 {
                assert(w.drop_last()[j] == b);
            }
        }
    }
}

/// With `counts` counting the letters of `w`, the number of letters that occur equals the
/// length of `w` exactly when `w` has no repeated byte.
proof fn lemma_distinct_iff(counts: Seq<u8>, w: Seq<u8>)
    requires
        counts_window(counts, w),
        forall|k: int| 0 <= k < w.len() ==> is_lower(#[trigger] w[k]),
    ensures
        nonzero(counts, 26) <= w.len(),
        (nonzero(counts, 26) == w.len()) == w.no_duplicates(),
    decreases w.len(),
{
    if w.len() == 0 {
        lemma_nonzero_zero(counts, 26);
    } else {
        let b = w.last();
        let i = (b - 97) as int;
        let prev = w.drop_last();
        assert(is_lower(w[w.len() - 1]));
        let pc = counts.update(i, (counts[i] - 1) as u8);
        assert forall|c: int| 0 <= c < 26 implies #[trigger] pc[c] == occ(prev, (c + 97) as u8) by {
            assert(counts[c] == occ(w, (c + 97) as u8));
        }
        lemma_distinct_iff(pc, prev);
        lemma_nonzero_update(pc, 26, i, counts[i]);
        assert(pc.update(i, counts[i]) =~= counts);
        lemma_occ_contains(prev, b);
        assert(counts[i] == occ(w, (i + 97) as u8));
        if w.no_duplicates() {
            assert forall|x: int, y: int| 0 <= x < y < prev.len() implies prev[x] != prev[y] by {
                assert(w[x] != w[y]);
            }
            if prev.contains(b) {
                let j = choose|j: int| 0 <= j < prev.len() && prev[j] == b;
                assert(w[j] == w[w.len() - 1]);
            }
        }
        if prev.no_duplicates() && !prev.contains(b) {
            assert forall|x: int, y: int| 0 <= x < w.len() && 0 <= y < w.len() && x != y implies w[x] != w[y] by {
                if x < w.len() - 1 && y < w.len() - 1 {
                    assert(prev[x] != prev[y]);
                } else if x == w.len() - 1 {
                    assert(prev[y] == w[y]);
                } else {
                    assert(prev[x] == w[x]);
                }
            }
        }
    }
}

proof fn lemma_nonzero_zero(counts: Seq<u8>, n: int)
    requires
        0 <= n <= counts.len(),
        forall|c: int| 0 <= c < n ==> counts[c] == 0 || occ(Seq::empty(), (c + 97) as u8) == counts[c],
    ensures
        nonzero(counts, n) == 0,
    decreases n,
{
    if n > 0 {
        lemma_nonzero_zero(counts, n - 1);
    }
}

/// A count of each lowercase letter in a window, and how many letters occur at all.
pub struct CountingCharSet {
    counts: [u8; 26],
    unique: usize,
}

impl CountingCharSet {
    /// The letter counts, indexed from `a`.
    pub closed spec fn counts(&self) -> Seq<u8> {
        self.counts@
    }

    pub closed spec fn unique(&self) -> nat {
        self.unique as nat
    }

    /// `unique` is the number of letters with a nonzero count.
    pub closed spec fn wf(&self) -> bool {
        self.unique == nonzero(self.counts@, 26)
    }

    /// An empty set: every count zero.
    pub fn new() -> (r: CountingCharSet)
        ensures
            r.wf(),
            r.counts() == Seq::new(26, |c: int| 0u8),
            r.unique() == 0,
    {
        let r = CountingCharSet { counts: [0u8; 26], unique: 0 };
        proof {
            lemma_nonzero_zero(r.counts@, 26);
        }
        r
    }

    /// Counts one more occurrence of the letter `c`.
    pub fn add(&mut self, c: u8)
        requires
            old(self).wf(),
            is_lower(c),
            old(self).counts()[c - 97] < 255,
        ensures
            final(self).wf(),
            final(self).counts() == old(self).counts().update(c - 97, (old(self).counts()[c - 97] + 1) as u8),
            final(self).unique() == old(self).unique() + if old(self).counts()[c - 97] == 0 { 1int } else { 0int },
    {
        let idx = (c - 97) as usize;
        proof {
            lemma_nonzero_update(self.counts@, 26, idx as int, (self.counts@[idx as int] + 1) as u8);
            assert(nonzero(self.counts@, 26) <= 26) by {
                lemma_nonzero_bound(self.counts@, 26);
            }
        }
        if self.counts[idx] == 0 {
            self.unique += 1;
        }
        self.counts[idx] = self.counts[idx] + 1;
    }

    /// Removes one occurrence of the letter `c`, which must be counted.
    pub fn remove(&mut self, c: u8)
        requires
            old(self).wf(),
            is_lower(c),
            old(self).counts()[c - 97] > 0,
        ensures
            final(self).wf(),
            final(self).counts() == old(self).counts().update(c - 97, (old(self).counts()[c - 97] - 1) as u8),
            final(self).unique() == old(self).unique() - if old(self).counts()[c - 97] == 1 { 1int } else { 0int },
    {
        let idx = (c - 97) as usize;
        proof {
            lemma_nonzero_update(self.counts@, 26, idx as int, (self.counts@[idx as int] - 1) as u8);
        }
        self.counts[idx] = self.counts[idx] - 1;
        if self.counts[idx] == 0 {
            self.unique -= 1;
        }
    }
}

proof fn lemma_nonzero_bound(counts: Seq<u8>, n: int)
    requires
        0 <= n <= counts.len(),
    ensures
        nonzero(counts, n) <= n,
    decreases n,
{
    if n > 0 {
        lemma_nonzero_bound(counts, n - 1);
    }
}

/// The end of the first marker of `len` different bytes in `data`: the least `i >= len`
/// such that `data[i - len .. i]` has no repeated byte.
pub fn find_marker(len: usize, data: &[u8]) -> (r: usize)
    requires
        1 <= len <= 255,
        forall|k: int| 0 <= k < data@.len() ==> is_lower(#[trigger] data@[k]),
        exists|i: int| is_marker(data@, len as int, i),
    ensures
        is_marker(data@, len as int, r as int),
        forall|j: int| len <= j < r ==> !is_marker(data@, len as int, j),
{
    let ghost m = choose|i: int| is_marker(data@, len as int, i);
    let mut set = CountingCharSet::new();
    let mut i: usize = 0;
    while i < len
        invariant
            i <= len <= 255,
            len <= m <= data@.len(),
            forall|k: int| 0 <= k < data@.len() ==> is_lower(#[trigger] data@[k]),
            set.wf(),
            counts_window(set.counts(), data@.subrange(0, i as int)),
        decreases len - i,
    {
        let ghost w = data@.subrange(0, i as int);
        let c = data[i];
        proof {
            assert(set.counts()[c - 97] == occ(w, c));
            lemma_occ_bound(w, c);
        }
        set.add(c);
        assert(data@.subrange(0, i + 1).drop_last() =~= w);
        i += 1;
    }
    loop
        invariant
            len <= i <= m <= data@.len(),
            len <= 255,
            is_marker(data@, len as int, m),
            forall|k: int| 0 <= k < data@.len() ==> is_lower(#[trigger] data@[k]),
            set.wf(),
            counts_window(set.counts(), data@.subrange(i - len, i as int)),
            forall|j: int| len <= j < i ==> !is_marker(data@, len as int, j),
        decreases data@.len() - i,
    {
        let ghost w = data@.subrange(i - len, i as int);
        proof {
            lemma_distinct_iff(set.counts(), w);
        }
        if set.unique >= len {
            return i;
        }
        assert(i != m);
        let out = data[i - len];
        let c = data[i];
        proof {
            lemma_occ_front(w, out);
            lemma_occ_contains(w, out);
            assert(w[0] == out);
            assert(set.counts()[out - 97] == occ(w, out));
        }
        set.remove(out);
        let ghost w2 = w.drop_first();
        assert(counts_window(set.counts(), w2)) by {
            assert forall|x: int| 0 <= x < 26 implies #[trigger] set.counts()[x] == occ(w2, (x + 97) as u8) by {
                lemma_occ_front(w, (x + 97) as u8);
            }
        }
        proof {
            assert(set.counts()[c - 97] == occ(w2, c));
            lemma_occ_bound(w2, c);
        }
        set.add(c);
        let ghost w3 = data@.subrange(i + 1 - len, i + 1);
        assert(w3.drop_last() =~= w2);
        assert(w3.last() == c);
        i += 1;
    }
}

proof fn lemma_occ_bound(w: Seq<u8>, b: u8)
    ensures
        occ(w, b) <= w.len(),
    decreases w.len(),
{
    if w.len() > 0 {
        lemma_occ_bound(w.drop_last(), b);
    }
}

/// The end of the first start-of-packet marker: four different bytes.
pub fn part1(input: &[u8]) -> (r: usize)
    requires
        forall|k: int| 0 <= k < input@.len() ==> is_lower(#[trigger] input@[k]),
        exists|i: int| is_marker(input@, 4, i),
    ensures
        is_marker(input@, 4, r as int),
        forall|j: int| 4 <= j < r ==> !is_marker(input@, 4, j),
{
    find_marker(4, input)
}

/// The end of the first start-of-message marker: fourteen different bytes.
pub fn part2(input: &[u8]) -> (r: usize)
    requires
        forall|k: int| 0 <= k < input@.len() ==> is_lower(#[trigger] input@[k]),
        exists|i: int| is_marker(input@, 14, i),
    ensures
        is_marker(input@, 14, r as int),
        forall|j: int| 14 <= j < r ==> !is_marker(input@, 14, j),
{
    find_marker(14, input)
}

} // verus!
