//! Mixing a circular list of numbers: each number, in the order they were given, moves forward or
//! backward by its value.
use vstd::prelude::*;
use vstd::set_lib::{lemma_int_range, lemma_subset_equality, set_int_range};
use crate::text::{parse_i32, signed_number, str_lines, text_lines, views};

verus! {

/// The multiplier of part two.
pub const DECRYPTION_KEY: i64 = 811589153;

/// The starting positions of the entries of `v`.
pub open spec fn keys(v: Seq<(usize, i64)>) -> Seq<int> {
    v.map_values(|e: (usize, i64)| e.0 as int)
}

/// The starting positions are `0 .. v.len()`, each once.
pub open spec fn is_perm(v: Seq<(usize, i64)>) -> bool {
    &&& keys(v).no_duplicates()
    &&& forall|k: int| 0 <= k < v.len() ==> (#[trigger] v[k]).0 < v.len()
}

/// Where the number first at index `home` is now.
pub open spec fn slot(v: Seq<(usize, i64)>, home: int) -> int {
    choose|k: int| 0 <= k < v.len() && (#[trigger] v[k]).0 == home
}

/// Moves the number first at index `home` by its value, in the list with it taken out,
/// wrapping around.
pub open spec fn mix_one(v: Seq<(usize, i64)>, home: int) -> Seq<(usize, i64)> {
    let k = slot(v, home);
    let e = v[k];
    v.remove(k).insert((k + e.1) % (v.len() - 1), e)
}

/// The list after moving the numbers first at indices `0 .. j`, in that order.
pub open spec fn mix_upto(v: Seq<(usize, i64)>, j: int) -> Seq<(usize, i64)>
    decreases j,
{
    if j <= 0 {
        v
    } else {
        mix_one(mix_upto(v, j - 1), j - 1)
    }
}

/// One round of mixing: every number moved once, in the order given.
pub open spec fn mixed(v: Seq<(usize, i64)>) -> Seq<(usize, i64)> {
    mix_upto(v, v.len() as int)
}

/// `t` rounds of mixing.
pub open spec fn mixed_times(v: Seq<(usize, i64)>, t: nat) -> Seq<(usize, i64)>
    decreases t,
{
    if t == 0 {
        v
    } else {
        mixed(mixed_times(v, (t - 1) as nat))
    }
}

proof fn lemma_perm_has(v: Seq<(usize, i64)>, home: int)
    requires
        is_perm(v),
        0 <= home < v.len(),
    ensures
        exists|k: int| 0 <= k < v.len() && (#[trigger] v[k]).0 == home,
{
    let ks = keys(v);
    let s = ks.to_set();
    ks.unique_seq_to_set();
    let range = set_int_range(0, v.len() as int);
    lemma_int_range(0, v.len() as int);
    assert forall|x: int| s.contains(x) implies range.contains(x) by {
        let k = choose|k: int| 0 <= k < ks.len() && ks[k] == x;
        assert(v[k].0 < v.len());
    }
    lemma_subset_equality(s, range);
    assert(range.contains(home));
    assert(s.contains(home));
    let k = choose|k: int| 0 <= k < ks.len() && ks[k] == home;
    assert(v[k].0 == home);
}

proof fn lemma_slot_unique(v: Seq<(usize, i64)>, home: int, k: int)
    requires
        is_perm(v),
        0 <= k < v.len(),
        v[k].0 == home,
    ensures
        slot(v, home) == k,
{
    let c = slot(v, home);
    assert(0 <= c < v.len() && v[c].0 == home);
    if c != k {
        assert(keys(v)[c] == keys(v)[k]);
    }
}

/// Moving one entry keeps the starting positions a permutation.
proof fn lemma_perm_move(v: Seq<(usize, i64)>, k: int, m: int)
    requires
        is_perm(v),
        0 <= k < v.len(),
        0 <= m < v.len(),
    ensures
        is_perm(v.remove(k).insert(m, v[k])),
        v.remove(k).insert(m, v[k]).len() == v.len(),
        forall|i: int| 0 <= i < v.len() ==> v.contains(#[trigger] v.remove(k).insert(m, v[k])[i]),
{
    let w = v.remove(k);
    let u = w.insert(m, v[k]);
    let src = |i: int| {
        let j = if i < m { i } else if i == m { -1 } else { i - 1 };
        if j == -1 { k } else if j < k { j } else { j + 1 }
    };
    assert forall|i: int| 0 <= i < u.len() implies u[i] == v[src(i)] && 0 <= src(i) < v.len() by {}
    assert forall|i: int, j: int| 0 <= i < u.len() && 0 <= j < u.len() && i != j implies keys(u)[i] != keys(u)[j] by {
        assert(u[i] == v[src(i)]);
        assert(u[j] == v[src(j)]);
        assert(src(i) != src(j));
        assert(keys(v)[src(i)] != keys(v)[src(j)]);
    }
    assert forall|i: int| 0 <= i < u.len() implies (#[trigger] u[i]).0 < u.len() by {
        assert(u[i] == v[src(i)]);
    }
    assert forall|i: int| 0 <= i < v.len() implies v.contains(#[trigger] u[i]) by {
        assert(u[i] == v[src(i)]);
    }
}

/// Performs one round of mixing in place.
pub fn mix(indexed_numbers: &mut Vec<(usize, i64)>)
    requires
        old(indexed_numbers)@.len() >= 2,
        is_perm(old(indexed_numbers)@),
    ensures
        final(indexed_numbers)@ == mixed(old(indexed_numbers)@),
        is_perm(final(indexed_numbers)@),
        final(indexed_numbers)@.len() == old(indexed_numbers)@.len(),
        forall|i: int|
            0 <= i < final(indexed_numbers)@.len() ==> old(indexed_numbers)@.contains(#[trigger] final(indexed_numbers)@[i]),
{
    let ghost start = indexed_numbers@;
    let n = indexed_numbers.len();
    let mut start_idx: usize = 0;
    assert forall|i: int| 0 <= i < n implies start.contains(#[trigger] indexed_numbers@[i]) by {
        assert(indexed_numbers@[i] == start[i]);
    }
    while start_idx < n
        invariant
            n == start.len(),
            n >= 2,
            start_idx <= n,
            indexed_numbers@.len() == n,
            is_perm(indexed_numbers@),
            indexed_numbers@ == mix_upto(start, start_idx as int),
            forall|i: int| 0 <= i < n ==> start.contains(#[trigger] indexed_numbers@[i]),
        decreases n - start_idx,
    {
        proof {
            lemma_perm_has(indexed_numbers@, start_idx as int);
        }
        let mut current_idx: usize = 0;
        while current_idx < n && indexed_numbers[current_idx].0 != start_idx
            invariant
                n == indexed_numbers@.len(),
                current_idx <= n,
                forall|j: int| 0 <= j < current_idx ==> (#[trigger] indexed_numbers@[j]).0 != start_idx,
                exists|k: int| 0 <= k < indexed_numbers@.len() && (#[trigger] indexed_numbers@[k]).0 == start_idx,
            decreases n - current_idx,
        {
            current_idx += 1;
        }
        proof {
            if current_idx == n {
                let k = choose|k: int| 0 <= k < indexed_numbers@.len() && (#[trigger] indexed_numbers@[k]).0 == start_idx;
                assert(indexed_numbers@[k].0 != start_idx);
            }
            lemma_slot_unique(indexed_numbers@, start_idx as int, current_idx as int);
        }
        let ghost before = indexed_numbers@;
        let (first_idx, value) = indexed_numbers.remove(current_idx);
        let len = indexed_numbers.len();
        let new_idx: usize = match (current_idx as i128 + value as i128).checked_rem_euclid(len as i128) {
            Some(m) => m as usize,
            None => 0,
        };
        assert(new_idx == (current_idx + value) % (len as int));
        proof {
            lemma_perm_move(before, current_idx as int, new_idx as int);
        }
        indexed_numbers.insert(new_idx, (first_idx, value));
        assert(indexed_numbers@ == before.remove(current_idx as int).insert(new_idx as int, before[current_idx as int]));
        assert forall|i: int| 0 <= i < n implies start.contains(#[trigger] indexed_numbers@[i]) by {
            assert(before.contains(indexed_numbers@[i]));
            let j1 = choose|j: int| 0 <= j < before.len() && before[j] == indexed_numbers@[i];
            assert(start.contains(before[j1]));
        }
        start_idx += 1;
    }
}

/// The index of the first 0 value of `v`.
pub open spec fn is_first_zero(v: Seq<(usize, i64)>, z: int) -> bool {
    0 <= z < v.len() && v[z].1 == 0 && forall|j: int| 0 <= j < z ==> (#[trigger] v[j]).1 != 0
}

/// The grove coordinates: the values 1000, 2000 and 3000 places after the first 0,
/// wrapping around, added up.
pub open spec fn grove(v: Seq<(usize, i64)>) -> int {
    let z = choose|z: int| is_first_zero(v, z);
    let n = v.len() as int;
    v[(z + 1000) % n].1 + v[(z + 2000) % n].1 + v[(z + 3000) % n].1
}

/// Returns the grove coordinates of a mixed list.
pub fn coordinates(indexed_numbers: &[(usize, i64)]) -> (r: i64)
    requires
        exists|k: int| 0 <= k < indexed_numbers@.len() && (#[trigger] indexed_numbers@[k]).1 == 0,
        forall|k: int| 0 <= k < indexed_numbers@.len() ==> -0x2000_0000_0000_0000 <= (#[trigger] indexed_numbers@[k]).1 <= 0x2000_0000_0000_0000,
    ensures
        r == grove(indexed_numbers@),
{
    let n = indexed_numbers.len();
    let mut zero_idx: usize = 0;
    while zero_idx < n && indexed_numbers[zero_idx].1 != 0
        invariant
            n == indexed_numbers@.len(),
            zero_idx <= n,
            forall|j: int| 0 <= j < zero_idx ==> (#[trigger] indexed_numbers@[j]).1 != 0,
            exists|k: int| 0 <= k < indexed_numbers@.len() && (#[trigger] indexed_numbers@[k]).1 == 0,
        decreases n - zero_idx,
    {
        zero_idx += 1;
    }
    proof {
        if zero_idx == n {
            let k = choose|k: int| 0 <= k < indexed_numbers@.len() && (#[trigger] indexed_numbers@[k]).1 == 0;
            assert(indexed_numbers@[k].1 != 0);
        }
        assert(is_first_zero(indexed_numbers@, zero_idx as int));
        let z = choose|z: int| is_first_zero(indexed_numbers@, z);
        if z < zero_idx {
            assert(indexed_numbers@[z].1 != 0);
        } else if z > zero_idx {
            assert(indexed_numbers@[zero_idx as int].1 == 0);
        }
    }
    let a = indexed_numbers[((zero_idx as u128 + 1000) % (n as u128)) as usize].1;
    let b = indexed_numbers[((zero_idx as u128 + 2000) % (n as u128)) as usize].1;
    let c = indexed_numbers[((zero_idx as u128 + 3000) % (n as u128)) as usize].1;
    a + b + c
}

/// The numbers written one per line, or `None` when a line is not a number that fits in
/// an `i32`.
pub open spec fn numbers_text(lines: Seq<Seq<u8>>) -> Option<Seq<int>>
    decreases lines.len(),
{
    if lines.len() == 0 {
        Some(Seq::empty())
    } else {
        match (numbers_text(lines.drop_last()), signed_number(lines.last())) {
            (Some(ns), Some(x)) => Some(ns.push(x)),
            _ => None,
        }
    }
}

/// `v` holds each number of `ns` with its index.
pub open spec fn indexed(v: Seq<(usize, i64)>, ns: Seq<int>) -> bool {
    &&& v.len() == ns.len()
    &&& forall|k: int| 0 <= k < v.len() ==> (#[trigger] v[k]).0 == k && v[k].1 == ns[k]
}

proof fn lemma_numbers_none(all: Seq<Seq<u8>>, i: int)
    requires
        0 <= i <= all.len(),
        numbers_text(all.subrange(0, i)) is None,
    ensures
        numbers_text(all) is None,
    decreases all.len() - i,
{
    if i < all.len() {
        assert(all.subrange(0, i + 1).drop_last() =~= all.subrange(0, i));
        lemma_numbers_none(all, i + 1);
    } else {
        assert(all.subrange(0, i) =~= all);
    }
}

proof fn lemma_numbers_range(ls: Seq<Seq<u8>>)
    requires
        numbers_text(ls) is Some,
    ensures
        forall|k: int|
            0 <= k < numbers_text(ls)->Some_0.len() ==> i32::MIN <= #[trigger] numbers_text(ls)->Some_0[k] <= i32::MAX,
        numbers_text(ls)->Some_0.len() == ls.len(),
    decreases ls.len(),
{
    if ls.len() > 0 {
        lemma_numbers_range(ls.drop_last());
        let x = signed_number(ls.last())->Some_0;
        if ls.last().len() >= 1 && ls.last()[0] == 45 {
            crate::text::lemma_decimal_nonneg(ls.last().drop_first());
        } else {
            crate::text::lemma_decimal_nonneg(ls.last());
        }
    }
}

/// Each line's number paired with its line index; `None` when a line is not a number.
pub fn parse_numbers(input: &str) -> (r: Option<Vec<(usize, i64)>>)
    ensures
        match r {
            Some(v) => numbers_text(text_lines(input)) matches Some(ns) && indexed(v@, ns),
            None => numbers_text(text_lines(input)) is None,
        },
{
    let rows = str_lines(input);
    let ghost all = views(rows@);
    let mut out: Vec<(usize, i64)> = Vec::new();
    let mut i: usize = 0;
    while i < rows.len()
        invariant
            all == views(rows@),
            all == text_lines(input),
            i <= all.len(),
            numbers_text(all.subrange(0, i as int)) matches Some(ns) && indexed(out@, ns),
            out@.len() == i,
        decreases all.len() - i,
    {
        assert(all.subrange(0, i + 1).drop_last() =~= all.subrange(0, i as int));
        assert(all[i as int] == rows@[i as int]@);
        let ghost prev = numbers_text(all.subrange(0, i as int))->Some_0;
        match parse_i32(rows[i].as_slice()) {
            Some(x) => {
                let ghost old_out = out@;
                assert(indexed(old_out, prev));
                out.push((i, x as i64));
                assert(numbers_text(all.subrange(0, i + 1)) == Some(prev.push(x as int)));
                assert forall|k: int| 0 <= k < out@.len() implies (#[trigger] out@[k]).0 == k && out@[k].1 == prev.push(
                    x as int,
                )[k] by {
                    if k < i {
                        assert(out@[k] == old_out[k]);
                    }
                }
                assert(indexed(out@, prev.push(x as int)));
            },
            None => {
                proof {
                    lemma_numbers_none(all, i + 1);
                }
                return None;
            },
        }
        i += 1;
    }
    assert(all.subrange(0, all.len() as int) =~= all);
    Some(out)
}


/// The list of `ns` with each number paired with its index.
pub open spec fn start_list(ns: Seq<int>) -> Seq<(usize, i64)> {
    Seq::new(ns.len(), |k: int| (k as usize, ns[k] as i64))
}

/// The list of `ns` with each number multiplied by `DECRYPTION_KEY`.
pub open spec fn scaled_list(ns: Seq<int>) -> Seq<(usize, i64)> {
    Seq::new(ns.len(), |k: int| (k as usize, (ns[k] * DECRYPTION_KEY) as i64))
}

/// Every entry of `v` carries the value `vals` has at its original index.
pub open spec fn tagged(v: Seq<(usize, i64)>, vals: Seq<int>) -> bool {
    forall|k: int| 0 <= k < v.len() ==> (#[trigger] v[k]).1 == vals[v[k].0 as int]
}

/// Mixes `v` `rounds` times, keeping the entries tagged with `vals`.
fn mix_rounds(v: &mut Vec<(usize, i64)>, rounds: usize, Ghost(vals): Ghost<Seq<int>>)
    requires
        old(v)@.len() >= 2,
        is_perm(old(v)@),
        vals.len() == old(v)@.len(),
        tagged(old(v)@, vals),
    ensures
        final(v)@ == mixed_times(old(v)@, rounds as nat),
        is_perm(final(v)@),
        final(v)@.len() == old(v)@.len(),
        tagged(final(v)@, vals),
{
    let ghost start = v@;
    let mut r: usize = 0;
    while r < rounds
        invariant
            r <= rounds,
            v@.len() == start.len(),
            v@.len() >= 2,
            is_perm(v@),
            vals.len() == v@.len(),
            tagged(v@, vals),
            v@ == mixed_times(start, r as nat),
        decreases rounds - r,
    {
        let ghost before = v@;
        mix(v);
        assert forall|k: int| 0 <= k < v@.len() implies (#[trigger] v@[k]).1 == vals[v@[k].0 as int] by {
            assert(before.contains(v@[k]));
            let j = choose|j: int| 0 <= j < before.len() && before[j] == v@[k];
            assert(before[j].1 == vals[before[j].0 as int]);
        }
        r += 1;
    }
}

proof fn lemma_has_zero(v: Seq<(usize, i64)>, vals: Seq<int>, z: int)
    requires
        is_perm(v),
        tagged(v, vals),
        vals.len() == v.len(),
        0 <= z < vals.len(),
        vals[z] == 0,
    ensures
        exists|k: int| 0 <= k < v.len() && (#[trigger] v[k]).1 == 0,
{
    lemma_perm_has(v, z);
    let k = choose|k: int| 0 <= k < v.len() && (#[trigger] v[k]).0 == z;
    assert(v[k].1 == 0);
}

/// The grove coordinates after one round of mixing the numbers of `input`.
pub fn part1(input: &str) -> (r: i64)
    requires
        numbers_text(text_lines(input)) matches Some(ns) && ns.len() >= 2 && ns.contains(0),
    ensures
        r == grove(mixed(start_list(numbers_text(text_lines(input))->Some_0))),
{
    let ghost ns = numbers_text(text_lines(input))->Some_0;
    let mut v = match parse_numbers(input) {
        Some(v) => v,
        None => {
            return 0;
        },
    };
    proof {
        lemma_numbers_range(text_lines(input));
        assert(v@ =~= start_list(ns));
        assert(is_perm(v@)) by {
            assert forall|i: int, j: int| 0 <= i < v@.len() && 0 <= j < v@.len() && i != j implies keys(v@)[i] != keys(v@)[j] by {}
        }
        assert(tagged(v@, ns));
    }
    mix_rounds(&mut v, 1, Ghost(ns));
    proof {
        assert(mixed_times(start_list(ns), 1) == mixed(mixed_times(start_list(ns), 0)));
        let z = choose|z: int| 0 <= z < ns.len() && ns[z] == 0;
        lemma_has_zero(v@, ns, z);
    }
    coordinates(v.as_slice())
}

/// The grove coordinates after multiplying every number by `DECRYPTION_KEY` and mixing ten times.
pub fn part2(input: &str) -> (r: i64)
    requires
        numbers_text(text_lines(input)) matches Some(ns) && ns.len() >= 2 && ns.contains(0),
    ensures
        r == grove(mixed_times(scaled_list(numbers_text(text_lines(input))->Some_0), 10)),
{
    let ghost ns = numbers_text(text_lines(input))->Some_0;
    let parsed = match parse_numbers(input) {
        Some(v) => v,
        None => {
            return 0;
        },
    };
    proof {
        lemma_numbers_range(text_lines(input));
    }
    let ghost vals = Seq::new(ns.len(), |k: int| ns[k] * DECRYPTION_KEY);
    let mut v: Vec<(usize, i64)> = Vec::new();
    let mut i: usize = 0;
    while i < parsed.len()
        invariant
            indexed(parsed@, ns),
            forall|k: int| 0 <= k < ns.len() ==> i32::MIN <= #[trigger] ns[k] <= i32::MAX,
            i <= parsed@.len(),
            v@ =~= scaled_list(ns).subrange(0, i as int),
        decreases parsed@.len() - i,
    {
        let (idx, n) = parsed[i];
        assert(i32::MIN <= ns[i as int] <= i32::MAX);
        assert(n * DECRYPTION_KEY <= 0x2000_0000_0000_0000 && n * DECRYPTION_KEY >= -0x2000_0000_0000_0000) by (nonlinear_arith)
            requires
                i32::MIN <= n <= i32::MAX,
        ;
        v.push((idx, n * DECRYPTION_KEY));
        i += 1;
    }
    proof {
        assert(v@ =~= scaled_list(ns));
        assert(is_perm(v@)) by {
            assert forall|i: int, j: int| 0 <= i < v@.len() && 0 <= j < v@.len() && i != j implies keys(v@)[i] != keys(v@)[j] by {}
        }
        assert forall|k: int| 0 <= k < v@.len() implies (#[trigger] v@[k]).1 == vals[v@[k].0 as int] by {
            assert(i32::MIN <= ns[k] <= i32::MAX);
            assert(ns[k] * DECRYPTION_KEY <= 0x2000_0000_0000_0000 && ns[k] * DECRYPTION_KEY >= -0x2000_0000_0000_0000) by (nonlinear_arith)
                requires
                    i32::MIN <= ns[k] <= i32::MAX,
            ;
        }
    }
    mix_rounds(&mut v, 10, Ghost(vals));
    proof {
        let z = choose|z: int| 0 <= z < ns.len() && ns[z] == 0;
        assert(vals[z] == 0);
        lemma_has_zero(v@, vals, z);
        assert forall|k: int| 0 <= k < v@.len() implies -0x2000_0000_0000_0000 <= (#[trigger] v@[k]).1 <= 0x2000_0000_0000_0000 by {
            let o = v@[k].0 as int;
            assert(i32::MIN <= ns[o] <= i32::MAX);
            assert(ns[o] * DECRYPTION_KEY <= 0x2000_0000_0000_0000 && ns[o] * DECRYPTION_KEY >= -0x2000_0000_0000_0000) by (nonlinear_arith)
                requires
                    i32::MIN <= ns[o] <= i32::MAX,
            ;
        }
    }
    coordinates(v.as_slice())
}

} // verus!
