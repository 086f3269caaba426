//! A file system rebuilt from a terminal session of `cd` and `ls`, and the total sizes of
//! its directories. Entries live in one vector; each knows the directory holding it.
use vstd::prelude::*;
use crate::text::{after_prefix, decimal, is_decimal, parse_u32, slice_of, split_at_space, split_space, str_lines, strip_prefix, text_lines, views};

verus! {

/// What an entry is: a file of some size, or a directory.
#[derive(Clone, Copy, Debug, PartialEq, Eq)]
pub enum Node {
    File(usize),
    Directory,
}

/// An entry: its name, the index of the directory holding it, and what it is. Entry 0
/// is the root directory, its own parent.
pub struct Entry {
    pub name: Vec<u8>,
    pub parent: usize,
    pub node: Node,
}

/// The entries as (name, parent, node).
pub type Listing = Seq<(Seq<u8>, int, Node)>;

pub open spec fn listing(v: Seq<Entry>) -> Listing {
    v.map_values(|e: Entry| (e.name@, e.parent as int, e.node))
}

/// Every entry but the root has an earlier directory as parent.
pub open spec fn wf(t: Listing) -> bool {
    &&& t.len() >= 1
    &&& t[0].1 == 0 && t[0].2 == Node::Directory
    &&& forall|k: int| 1 <= k < t.len() ==> 0 <= (#[trigger] t[k]).1 < k && t[t[k].1].2 == Node::Directory
}

/// Entry `f` is `d` or lies below it.
pub open spec fn inside(t: Listing, d: int, f: int) -> bool
    decreases f,
{
    if f == d {
        true
    } else if f <= 0 || f >= t.len() || t[f].1 >= f || t[f].1 < 0 {
        false
    } else {
        inside(t, d, t[f].1)
    }
}

/// The total size of the files among the first `n` entries that lie in `d`.
pub open spec fn size_upto(t: Listing, d: int, n: int) -> int
    decreases n,
{
    if n <= 0 {
        0
    } else {
        size_upto(t, d, n - 1) + match t[n - 1].2 {
            Node::File(s) => if inside(t, d, n - 1) { s as int } else { 0 },
            Node::Directory => 0,
        }
    }
}

/// The size of `d`: the sizes of all files below it.
pub open spec fn size(t: Listing, d: int) -> int {
    size_upto(t, d, t.len() as int)
}

/// The index of the child of `dir` named `name`, if there is one.
pub open spec fn child(t: Listing, dir: int, name: Seq<u8>) -> Option<int> {
    if exists|k: int| 1 <= k < t.len() && (#[trigger] t[k]).1 == dir && t[k].0 == name {
        Some(choose|k: int| 1 <= k < t.len() && (#[trigger] t[k]).1 == dir && t[k].0 == name)
    } else {
        None
    }
}

/// The session's state: the entries so far, the current directory, and whether the lines
/// being read are the output of `ls`.
pub type Session = (Listing, int, bool);

pub open spec fn cd_prefix() -> Seq<u8> {
    seq![36u8, 32, 99, 100, 32]
}

pub open spec fn ls_line() -> Seq<u8> {
    seq![36u8, 32, 108, 115]
}

pub open spec fn dir_prefix() -> Seq<u8> {
    seq![100u8, 105, 114, 32]
}

/// The state after one more line; `None` when the line does not fit the session.
pub open spec fn step(s: Session, line: Seq<u8>) -> Option<Session> {
    let (t, cur, listing_now) = s;
    if line.len() >= 2 && line[0] == 36 && line[1] == 32 {
        if line == ls_line() {
            Some((t, cur, true))
        } else {
            match after_prefix(line, cd_prefix()) {
                Some(arg) => if arg == seq![47u8] {
                    Some((t, 0, false))
                } else if arg == seq![46u8, 46] {
                    Some((t, t[cur].1, false))
                } else {
                    match child(t, cur, arg) {
                        Some(k) => if t[k].2 == Node::Directory { Some((t, k, false)) } else { None },
                        None => None,
                    }
                },
                None => None,
            }
        }
    } else if !listing_now {
        None
    } else {
        match split_space(line) {
            Some((first, name)) => if child(t, cur, name) is Some {
                None
            } else if first == seq![100u8, 105, 114] {
                Some((t.push((name, cur, Node::Directory)), cur, true))
            } else if is_decimal(first) && decimal(first) <= u32::MAX {
                Some((t.push((name, cur, Node::File(decimal(first) as usize))), cur, true))
            } else {
                None
            },
            None => None,
        }
    }
}

/// The state after the lines `ls`, from a root alone.
pub open spec fn session(ls: Seq<Seq<u8>>) -> Option<Session>
    decreases ls.len(),
{
    if ls.len() == 0 {
        Some((seq![(Seq::empty(), 0int, Node::Directory)], 0, false))
    } else {
        match session(ls.drop_last()) {
            Some(s) => step(s, ls.last()),
            None => None,
        }
    }
}


proof fn lemma_inside_le(t: Listing, d: int, f: int)
    requires
        inside(t, d, f),
    ensures
        d <= f,
    decreases f,
{
    if f != d {
        lemma_inside_le(t, d, t[f].1);
    }
}

proof fn lemma_inside_trans(t: Listing, a: int, b: int, f: int)
    requires
        inside(t, a, b),
        inside(t, b, f),
    ensures
        inside(t, a, f),
    decreases f,
{
    if f != b {
        lemma_inside_trans(t, a, b, t[f].1);
    }
}

proof fn lemma_root_holds_all(t: Listing, f: int)
    requires
        wf(t),
        0 <= f < t.len(),
    ensures
        inside(t, 0, f),
    decreases f,
{
    if f > 0 {
        lemma_root_holds_all(t, t[f].1);
    }
}

/// Adds `s` to the size of every directory holding entry `f`, from `f` up to the root.
fn add_up(t: &Vec<Entry>, sizes: &mut Vec<usize>, f: usize, s: usize, Ghost(n): Ghost<int>)
    requires
        wf(listing(t@)),
        f < t@.len(),
        old(sizes)@.len() == t@.len(),
        forall|d: int| 0 <= d < t@.len() ==> #[trigger] old(sizes)@[d] == size_upto(listing(t@), d, n),
        forall|d: int| 0 <= d < t@.len() ==> size_upto(listing(t@), d, n) + s <= usize::MAX,
    ensures
        final(sizes)@.len() == t@.len(),
        forall|d: int|
            0 <= d < t@.len() ==> #[trigger] final(sizes)@[d] == size_upto(listing(t@), d, n) + if inside(listing(t@), d, f as int) {
                s as int
            } else {
                0
            },
{
    let ghost lt = listing(t@);
    let mut x: usize = f;
    loop
        invariant
            wf(lt),
            lt == listing(t@),
            x < t@.len(),
            x <= f,
            inside(lt, x as int, f as int),
            sizes@.len() == t@.len(),
            forall|d: int| 0 <= d < t@.len() ==> size_upto(lt, d, n) + s <= usize::MAX,
            forall|d: int|
                0 <= d < t@.len() ==> #[trigger] sizes@[d] == size_upto(lt, d, n) + if inside(lt, d, f as int) && !inside(
                    lt,
                    d,
                    x as int,
                ) {
                    s as int
                } else {
                    0
                },
        decreases x,
    {
        let ghost before = sizes@;
        assert(lt[x as int] == (t@[x as int].name@, t@[x as int].parent as int, t@[x as int].node));
        let v = sizes[x];
        sizes.set(x, v + s);
        if x == 0 {
            assert forall|d: int| 0 <= d < t@.len() implies #[trigger] sizes@[d] == size_upto(lt, d, n) + if inside(lt, d, f as int) {
                s as int
            } else {
                0
            } by {
                if d != 0 && inside(lt, d, 0) {
                    lemma_inside_le(lt, d, 0);
                }
            }
            return;
        }
        let p = t[x].parent;
        proof {
            assert(lt[x as int].1 == p as int);
            assert(0 <= lt[x as int].1 < x);
            assert(inside(lt, p as int, p as int));
            assert(inside(lt, p as int, x as int));
            lemma_inside_trans(lt, p as int, x as int, f as int);
        }
        assert forall|d: int| 0 <= d < t@.len() implies #[trigger] sizes@[d] == size_upto(lt, d, n) + if inside(lt, d, f as int)
            && !inside(lt, d, p as int) {
            s as int
        } else {
            0
        } by {
            if d == x {
                if inside(lt, d, p as int) {
                    lemma_inside_le(lt, d, p as int);
                }
            } else {
                assert(inside(lt, d, x as int) == inside(lt, d, p as int));
            }
        }
        x = p;
    }
}

/// The total size of each entry's subtree (0 for files), by index.
fn dir_sizes(t: &Vec<Entry>) -> (r: Vec<usize>)
    requires
        wf(listing(t@)),
        size(listing(t@), 0) <= usize::MAX,
    ensures
        r@.len() == t@.len(),
        forall|d: int| 0 <= d < t@.len() ==> #[trigger] r@[d] == size(listing(t@), d),
{
    let ghost lt = listing(t@);
    let n = t.len();
    let mut sizes: Vec<usize> = Vec::new();
    let mut i: usize = 0;
    while i < n
        invariant
            n == t@.len(),
            i <= n,
            sizes@.len() == i,
            forall|d: int| 0 <= d < i ==> #[trigger] sizes@[d] == 0usize,
        decreases n - i,
    {
        sizes.push(0);
        i += 1;
    }
    let mut f: usize = 0;
    while f < n
        invariant
            wf(lt),
            lt == listing(t@),
            n == t@.len(),
            f <= n,
            size(lt, 0) <= usize::MAX,
            sizes@.len() == n,
            forall|d: int| 0 <= d < n ==> #[trigger] sizes@[d] == size_upto(lt, d, f as int),
        decreases n - f,
    {
        assert(lt[f as int] == (t@[f as int].name@, t@[f as int].parent as int, t@[f as int].node));
        match t[f].node {
            Node::File(s) => {
                proof {
                    lemma_root_holds_all(lt, f as int);
                    lemma_size_mono(lt, 0, f as int + 1, n as int);
                    assert(size_upto(lt, 0, f as int + 1) == size_upto(lt, 0, f as int) + s);
                    assert forall|d: int| 0 <= d < n implies size_upto(lt, d, f as int) + s <= usize::MAX by {
                        lemma_size_bound(lt, d, f as int);
                    }
                }
                add_up(t, &mut sizes, f, s, Ghost(f as int));
            },
            Node::Directory => {},
        }
        f += 1;
    }
    sizes
}

/// A subtree's files are among the root's, so its size is at most the root's.
proof fn lemma_size_bound(t: Listing, d: int, n: int)
    requires
        wf(t),
        0 <= n <= t.len(),
    ensures
        0 <= size_upto(t, d, n) <= size_upto(t, 0, n),
    decreases n,
{
    if n > 0 {
        lemma_size_bound(t, d, n - 1);
        lemma_root_holds_all(t, n - 1);
    }
}

proof fn lemma_size_mono(t: Listing, d: int, a: int, b: int)
    requires
        0 <= a <= b <= t.len(),
    ensures
        size_upto(t, d, a) <= size_upto(t, d, b),
    decreases b - a,
{
    if a < b {
        lemma_size_mono(t, d, a, b - 1);
    }
}


/// No two entries of a directory share a name.
pub open spec fn names_unique(t: Listing) -> bool {
    forall|a: int, b: int|
        1 <= a < t.len() && 1 <= b < t.len() && a != b && #[trigger] t[a].1 == #[trigger] t[b].1 ==> t[a].0 != t[b].0
}

fn same_bytes(x: &Vec<u8>, y: &Vec<u8>) -> (r: bool)
    ensures
        r == (x@ == y@),
{
    if x.len() != y.len() {
        return false;
    }
    let mut i: usize = 0;
    while i < x.len()
        invariant
            x@.len() == y@.len(),
            i <= x@.len(),
            forall|j: int| 0 <= j < i ==> x@[j] == y@[j],
        decreases x@.len() - i,
    {
        if x[i] != y[i] {
            return false;
        }
        i += 1;
    }
    assert(x@ =~= y@);
    true
}

/// The child of `dir` named `name`.
fn find_child(t: &Vec<Entry>, dir: usize, name: &Vec<u8>) -> (r: Option<usize>)
    requires
        names_unique(listing(t@)),
    ensures
        match r {
            Some(k) => child(listing(t@), dir as int, name@) == Some(k as int) && 1 <= k < t@.len(),
            None => child(listing(t@), dir as int, name@) is None,
        },
{
    let ghost lt = listing(t@);
    let mut k: usize = 1;
    while k < t.len()
        invariant
            lt == listing(t@),
            names_unique(lt),
            1 <= k,
            forall|j: int| 1 <= j < k && j < t@.len() ==> !((#[trigger] lt[j]).1 == dir && lt[j].0 == name@),
        decreases t@.len() - k,
    {
        assert(lt[k as int] == (t@[k as int].name@, t@[k as int].parent as int, t@[k as int].node));
        if t[k].parent == dir && same_bytes(&t[k].name, name) {
            proof {
                assert(1 <= k < lt.len() && lt[k as int].1 == dir && lt[k as int].0 == name@);
                let c = choose|c: int| 1 <= c < lt.len() && (#[trigger] lt[c]).1 == dir && lt[c].0 == name@;
                if c != k {
                    assert(lt[c].1 == lt[k as int].1);
                }
            }
            return Some(k);
        }
        k += 1;
    }
    None
}

proof fn lemma_session_none(ls: Seq<Seq<u8>>, i: int)
    requires
        0 <= i <= ls.len(),
        session(ls.subrange(0, i)) is None,
    ensures
        session(ls) is None,
    decreases ls.len() - i,
{
    if i < ls.len() {
        assert(ls.subrange(0, i + 1).drop_last() =~= ls.subrange(0, i));
        lemma_session_none(ls, i + 1);
    } else {
        assert(ls.subrange(0, i) =~= ls);
    }
}

/// The entries of the file system that the session `input` shows; `None` when a line is
/// neither `$ cd` to the root, to the parent or to a listed directory, nor `$ ls`, nor,
/// after `$ ls`, an entry `dir name` or `size name` with a name new to the directory.
pub fn generator(input: &str) -> (r: Option<Vec<Entry>>)
    ensures
        match r {
            Some(v) => session(text_lines(input)) matches Some(s) && listing(v@) == s.0 && wf(listing(v@)),
            None => session(text_lines(input)) is None,
        },
{
    let rows = str_lines(input);
    let ghost ls = views(rows@);
    let mut entries: Vec<Entry> = Vec::new();
    entries.push(Entry { name: Vec::new(), parent: 0, node: Node::Directory });
    let mut cur: usize = 0;
    let mut in_ls = false;
    let cd: Vec<u8> = vec![36, 32, 99, 100, 32];
    assert(cd@ =~= cd_prefix());
    assert(listing(entries@) =~= seq![(Seq::<u8>::empty(), 0int, Node::Directory)]);
    let mut i: usize = 0;
    while i < rows.len()
        invariant
            ls == views(rows@),
            ls == text_lines(input),
            i <= ls.len(),
            cd@ == cd_prefix(),
            session(ls.subrange(0, i as int)) == Some((listing(entries@), cur as int, in_ls)),
            wf(listing(entries@)),
            names_unique(listing(entries@)),
            cur < entries@.len(),
            listing(entries@)[cur as int].2 == Node::Directory,
        decreases ls.len() - i,
    {
        assert(ls.subrange(0, i + 1).drop_last() =~= ls.subrange(0, i as int));
        let line = &rows[i];
        assert(line@ == ls[i as int]);
        let ghost lt = listing(entries@);
        assert(lt[cur as int] == (entries@[cur as int].name@, entries@[cur as int].parent as int, entries@[cur as int].node));
        if line.len() >= 2 && line[0] == 36 && line[1] == 32 {
            if line.len() == 4 && line[2] == 108 && line[3] == 115 {
                assert(line@ =~= ls_line());
                in_ls = true;
            } else {
                assert(line@ != ls_line()) by {
                    if line@ == ls_line() {
                        assert(ls_line().len() == 4 && ls_line()[2] == 108 && ls_line()[3] == 115);
                    }
                }
                let arg = match strip_prefix(line.as_slice(), cd.as_slice()) {
                    Some(a) => a,
                    None => {
                        proof {
                            lemma_session_none(ls, i + 1);
                        }
                        return None;
                    },
                };
                if arg.len() == 1 && arg[0] == 47 {
                    assert(arg@ =~= seq![47u8]);
                    cur = 0;
                    in_ls = false;
                } else {
                    assert(arg@ != seq![47u8]) by {
                        if arg@ == seq![47u8] {
                            assert(seq![47u8].len() == 1 && seq![47u8][0] == 47);
                        }
                    }
                    if arg.len() == 2 && arg[0] == 46 && arg[1] == 46 {
                        assert(arg@ =~= seq![46u8, 46]);
                        cur = entries[cur].parent;
                        in_ls = false;
                    } else {
                        assert(arg@ != seq![46u8, 46]) by {
                            if arg@ == seq![46u8, 46] {
                                assert(seq![46u8, 46].len() == 2 && seq![46u8, 46][0] == 46 && seq![46u8, 46][1] == 46);
                            }
                        }
                        match find_child(&entries, cur, &arg) {
                            Some(k) => {
                                assert(lt[k as int] == (entries@[k as int].name@, entries@[k as int].parent as int, entries@[k as int].node));
                                if matches!(entries[k].node, Node::Directory) {
                                    cur = k;
                                    in_ls = false;
                                } else {
                                    proof {
                                        lemma_session_none(ls, i + 1);
                                    }
                                    return None;
                                }
                            },
                            None => {
                                proof {
                                    lemma_session_none(ls, i + 1);
                                }
                                return None;
                            },
                        }
                    }
                }
            }
        } else if !in_ls {
            proof {
                lemma_session_none(ls, i + 1);
            }
            return None;
        } else {
            let (first, name) = match split_at_space(line.as_slice()) {
                Some(p) => p,
                None => {
                    proof {
                        lemma_session_none(ls, i + 1);
                    }
                    return None;
                },
            };
            if find_child(&entries, cur, &name).is_some() {
                proof {
                    lemma_session_none(ls, i + 1);
                }
                return None;
            }
            let node = if first.len() == 3 && first[0] == 100 && first[1] == 105 && first[2] == 114 {
                assert(first@ =~= seq![100u8, 105, 114]);
                Node::Directory
            } else {
                assert(first@ != seq![100u8, 105, 114]) by {
                    if first@ == seq![100u8, 105, 114] {
                        assert(seq![100u8, 105, 114].len() == 3);
                        assert(seq![100u8, 105, 114][0] == 100 && seq![100u8, 105, 114][1] == 105 && seq![100u8, 105, 114][2] == 114);
                    }
                }
                proof {
                    if is_decimal(first@) {
                        crate::text::lemma_decimal_nonneg(first@);
                    }
                }
                match parse_u32(first.as_slice()) {
                    Some(v) => Node::File(v as usize),
                    None => {
                        proof {
                            lemma_session_none(ls, i + 1);
                        }
                        return None;
                    },
                }
            };
            let ghost name_v = name@;
            entries.push(Entry { name, parent: cur, node });
            proof {
                assert(listing(entries@) =~= lt.push((name_v, cur as int, node)));
                let nt = listing(entries@);
                assert forall|a: int, b: int|
                    1 <= a < nt.len() && 1 <= b < nt.len() && a != b && #[trigger] nt[a].1 == #[trigger] nt[b].1 implies nt[a].0
                    != nt[b].0 by {
                    if a == lt.len() as int {
                        assert(!(lt[b].1 == cur && lt[b].0 == name_v));
                    } else if b == lt.len() as int {
                        assert(!(lt[a].1 == cur && lt[a].0 == name_v));
                    }
                }
            }
        }
        i += 1;
    }
    assert(ls.subrange(0, ls.len() as int) =~= ls);
    Some(entries)
}


/// The sum of the sizes below 100000 of the directories among the first `n` entries.
pub open spec fn small_total(t: Listing, n: int) -> int
    decreases n,
{
    if n <= 0 {
        0
    } else {
        small_total(t, n - 1) + if t[n - 1].2 == Node::Directory && size(t, n - 1) < 100000 {
            size(t, n - 1)
        } else {
            0
        }
    }
}

/// The least size of at least `target` among the directories of the first `n` entries.
pub open spec fn least_big(t: Listing, target: int, n: int) -> Option<int>
    decreases n,
{
    if n <= 0 {
        None
    } else {
        let rest = least_big(t, target, n - 1);
        let s = size(t, n - 1);
        if t[n - 1].2 == Node::Directory && s >= target {
            match rest {
                Some(m) => if s < m { Some(s) } else { Some(m) },
                None => Some(s),
            }
        } else {
            rest
        }
    }
}

/// The sum of the sizes of the directories of size below 100000.
pub fn part1(root: &Vec<Entry>) -> (r: usize)
    requires
        wf(listing(root@)),
        size(listing(root@), 0) <= usize::MAX,
        root@.len() * 100000 <= usize::MAX,
    ensures
        r == small_total(listing(root@), root@.len() as int),
{
    let ghost lt = listing(root@);
    let sizes = dir_sizes(root);
    let mut total: usize = 0;
    let mut k: usize = 0;
    while k < root.len()
        invariant
            lt == listing(root@),
            root@.len() * 100000 <= usize::MAX,
            sizes@.len() == root@.len(),
            forall|d: int| 0 <= d < root@.len() ==> #[trigger] sizes@[d] == size(lt, d),
            k <= root@.len(),
            total == small_total(lt, k as int),
            total <= k * 100000,
        decreases root@.len() - k,
    {
        assert(lt[k as int] == (root@[k as int].name@, root@[k as int].parent as int, root@[k as int].node));
        assert(sizes@[k as int] == size(lt, k as int));
        if matches!(root[k].node, Node::Directory) && sizes[k] < 100000 {
            total = total + sizes[k];
        }
        k += 1;
    }
    total
}

/// The size of the smallest directory whose removal leaves 30000000 of 70000000 free;
/// 0 when there is none.
pub fn part2(root: &Vec<Entry>) -> (r: usize)
    requires
        wf(listing(root@)),
        40000000 <= size(listing(root@), 0) <= 70000000,
    ensures
        r == match least_big(listing(root@), size(listing(root@), 0) - 40000000, root@.len() as int) {
            Some(m) => m,
            None => 0,
        },
{
    let ghost lt = listing(root@);
    let sizes = dir_sizes(root);
    let used = sizes[0];
    let target = 30000000 - (70000000 - used);
    let mut best: Option<usize> = None;
    let mut k: usize = 0;
    while k < root.len()
        invariant
            lt == listing(root@),
            sizes@.len() == root@.len(),
            forall|d: int| 0 <= d < root@.len() ==> #[trigger] sizes@[d] == size(lt, d),
            target == size(lt, 0) - 40000000,
            k <= root@.len(),
            best == match least_big(lt, target as int, k as int) {
                Some(m) => Some(m as usize),
                None => None::<usize>,
            },
            least_big(lt, target as int, k as int) matches Some(m) ==> 0 <= m <= usize::MAX,
        decreases root@.len() - k,
    {
        assert(lt[k as int] == (root@[k as int].name@, root@[k as int].parent as int, root@[k as int].node));
        assert(sizes@[k as int] == size(lt, k as int));
        if matches!(root[k].node, Node::Directory) && sizes[k] >= target {
            best = match best {
                Some(m) => if sizes[k] < m { Some(sizes[k]) } else { Some(m) },
                None => Some(sizes[k]),
            };
        }
        k += 1;
    }
    match best {
        Some(m) => m,
        None => 0,
    }
}

} // verus!
