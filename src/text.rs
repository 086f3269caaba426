//! Reading puzzle text: splitting bytes into lines and reading decimal numbers.
use vstd::prelude::*;
use vstd::string::StringSliceAdditionalSpecFns;

verus! {

pub const NEWLINE: u8 = 10;

/// The pieces of `s` between newlines, in order; there is always at least one.
pub open spec fn split_newlines(s: Seq<u8>) -> Seq<Seq<u8>>
    decreases s.len(),
{
    if s.len() == 0 {
        seq![Seq::empty()]
    } else {
        let rest = split_newlines(s.drop_last());
        if s.last() == NEWLINE {
            rest.push(Seq::empty())
        } else {
            rest.update(rest.len() - 1, rest.last().push(s.last()))
        }
    }
}

/// The lines of `s`: the pieces between newlines, without the empty piece after a final newline.
pub open spec fn lines(s: Seq<u8>) -> Seq<Seq<u8>> {
    if s.len() == 0 {
        Seq::empty()
    } else if s.last() == NEWLINE {
        split_newlines(s).drop_last()
    } else {
        split_newlines(s)
    }
}

proof fn lemma_split_nonempty(s: Seq<u8>)
    ensures
        split_newlines(s).len() >= 1,
    decreases s.len(),
{
    if s.len() > 0 {
        lemma_split_nonempty(s.drop_last());
    }
}

/// The contents of each of a sequence of byte vectors.
pub open spec fn views(v: Seq<Vec<u8>>) -> Seq<Seq<u8>> {
    v.map_values(|l: Vec<u8>| l@)
}

/// Splits `s` into its lines.
pub fn lines_of(s: &[u8]) -> (r: Vec<Vec<u8>>)
    ensures
        views(r@) == lines(s@),
{
    let mut done: Vec<Vec<u8>> = Vec::new();
    let mut cur: Vec<u8> = Vec::new();
    let mut i: usize = 0;
    while i < s.len()
        invariant
            i <= s@.len(),
            views(done@).push(cur@) == split_newlines(s@.subrange(0, i as int)),
        decreases s@.len() - i,
    {
        proof {
            assert(s@.subrange(0, i + 1).drop_last() =~= s@.subrange(0, i as int));
            lemma_split_nonempty(s@.subrange(0, i as int));
        }
        let ghost before = views(done@).push(cur@);
        if s[i] == NEWLINE {
            done.push(cur);
            cur = Vec::new();
            assert(views(done@).push(cur@) =~= before.push(Seq::empty()));
        } else {
            cur.push(s[i]);
            assert(views(done@).push(cur@) =~= before.update(before.len() - 1, before.last().push(s@[i as int])));
        }
        i += 1;
    }
    assert(s@.subrange(0, s@.len() as int) =~= s@);
    let ghost all = views(done@).push(cur@);
    if s.len() == 0 {
        return Vec::new();
    }
    if s[s.len() - 1] == NEWLINE {
        assert(views(done@) =~= all.drop_last());
    } else {
        done.push(cur);
        assert(views(done@) =~= all);
    }
    done
}

/// The lines of the UTF-8 bytes of `s`.
pub open spec fn text_lines(s: &str) -> Seq<Seq<u8>> {
    lines(s.spec_bytes())
}

/// Splits the bytes of `s` into lines.
pub fn str_lines(s: &str) -> (r: Vec<Vec<u8>>)
    ensures
        views(r@) == text_lines(s),
{
    lines_of(s.as_bytes())
}

pub open spec fn is_digit(b: u8) -> bool {
    48 <= b <= 57
}

/// One or more decimal digits.
pub open spec fn is_decimal(s: Seq<u8>) -> bool {
    s.len() >= 1 && forall|i: int| 0 <= i < s.len() ==> is_digit(#[trigger] s[i])
}

/// The value of the decimal digits `s`.
pub open spec fn decimal(s: Seq<u8>) -> int
    decreases s.len(),
{
    if s.len() == 0 {
        0
    } else {
        decimal(s.drop_last()) * 10 + (s.last() - 48)
    }
}

proof fn lemma_decimal_grows(s: Seq<u8>, i: int)
    requires
        forall|j: int| 0 <= j < s.len() ==> is_digit(#[trigger] s[j]),
        0 <= i <= s.len(),
    ensures
        0 <= decimal(s.subrange(0, i)) <= decimal(s),
    decreases s.len() - i,
{
    if i < s.len() {
        lemma_decimal_grows(s, i + 1);
        assert(s.subrange(0, i + 1).drop_last() =~= s.subrange(0, i));
    } else {
        assert(s.subrange(0, i) =~= s);
    }
    lemma_decimal_nonneg(s.subrange(0, i));
}

pub(crate) proof fn lemma_decimal_nonneg(s: Seq<u8>)
    requires
        forall|j: int| 0 <= j < s.len() ==> is_digit(#[trigger] s[j]),
    ensures
        decimal(s) >= 0,
    decreases s.len(),
{
    if s.len() > 0 {
        lemma_decimal_nonneg(s.drop_last());
    }
}

/// Reads `s` as an unsigned decimal number: `None` unless it is one or more digits whose
/// value fits in a `u32`.
pub fn parse_u32(s: &[u8]) -> (r: Option<u32>)
    ensures
        r == if is_decimal(s@) && decimal(s@) <= u32::MAX { Some(decimal(s@) as u32) } else { None::<u32> },
{
    if s.len() == 0 {
        return None;
    }
    let mut v: u64 = 0;
    let mut i: usize = 0;
    while i < s.len()
        invariant
            i <= s@.len(),
            forall|j: int| 0 <= j < i ==> is_digit(#[trigger] s@[j]),
            v == decimal(s@.subrange(0, i as int)),
            v <= u32::MAX,
        decreases s@.len() - i,
    {
        if !(48 <= s[i] && s[i] <= 57) {
            return None;
        }
        assert(s@.subrange(0, i + 1).drop_last() =~= s@.subrange(0, i as int));
        let next: u64 = v * 10 + (s[i] - 48) as u64;
        if next > u32::MAX as u64 {
            proof {
                if forall|j: int| 0 <= j < s@.len() ==> is_digit(#[trigger] s@[j]) {
                    lemma_decimal_grows(s@, i + 1);
                }
            }
            return None;
        }
        v = next;
        i += 1;
    }
    assert(s@.subrange(0, s@.len() as int) =~= s@);
    Some(v as u32)
}


/// `i` is the first position of byte `b` in `s`.
pub open spec fn is_first(s: Seq<u8>, b: u8, i: int) -> bool {
    0 <= i < s.len() && s[i] == b && forall|j: int| 0 <= j < i ==> s[j] != b
}

/// The first position of byte `b` in `s`, or `None` when `s` does not hold it.
pub open spec fn first_index(s: Seq<u8>, b: u8) -> Option<int> {
    if exists|i: int| is_first(s, b, i) {
        Some(choose|i: int| is_first(s, b, i))
    } else {
        None
    }
}

/// Finds the first position of byte `b` in `s`.
pub fn find_byte(s: &[u8], b: u8) -> (r: Option<usize>)
    ensures
        match r {
            Some(i) => first_index(s@, b) == Some(i as int) && is_first(s@, b, i as int),
            None => first_index(s@, b) is None,
        },
{
    let mut i: usize = 0;
    while i < s.len()
        invariant
            i <= s@.len(),
            forall|j: int| 0 <= j < i ==> s@[j] != b,
        decreases s@.len() - i,
    {
        if s[i] == b {
            proof {
                assert(is_first(s@, b, i as int));
                let c = choose|c: int| is_first(s@, b, c);
                assert(c == i as int) by {
                    if c < i {
                        assert(s@[c] != b);
                    } else if c > i {
                        assert(s@[i as int] == b);
                    }
                }
            }
            return Some(i);
        }
        i += 1;
    }
    None
}

/// Copies `s[from .. to]`.
pub fn slice_of(s: &[u8], from: usize, to: usize) -> (r: Vec<u8>)
    requires
        from <= to <= s@.len(),
    ensures
        r@ == s@.subrange(from as int, to as int),
{
    let mut r: Vec<u8> = Vec::new();
    let mut i: usize = from;
    while i < to
        invariant
            from <= i <= to <= s@.len(),
            r@ == s@.subrange(from as int, i as int),
        decreases to - i,
    {
        r.push(s[i]);
        i += 1;
    }
    r
}


/// The value of `s` as an optionally negative decimal number (`-` then digits), when it
/// fits in an `i32`.
pub open spec fn signed_number(s: Seq<u8>) -> Option<int> {
    if s.len() >= 1 && s[0] == 45 {
        let d = s.drop_first();
        if is_decimal(d) && decimal(d) <= 0x8000_0000 {
            Some(-decimal(d))
        } else {
            None
        }
    } else if is_decimal(s) && decimal(s) <= i32::MAX {
        Some(decimal(s))
    } else {
        None
    }
}

/// Reads `s` as an optionally negative decimal number that fits in an `i32`.
pub fn parse_i32(s: &[u8]) -> (r: Option<i32>)
    ensures
        match r {
            Some(v) => signed_number(s@) == Some(v as int),
            None => signed_number(s@) is None,
        },
{
    if s.len() >= 1 && s[0] == 45 {
        let digits = slice_of(s, 1, s.len());
        assert(digits@ =~= s@.drop_first());
        proof {
            if is_decimal(digits@) {
                lemma_decimal_nonneg(digits@);
            }
        }
        match parse_u32(digits.as_slice()) {
            Some(v) => {
                if v <= 0x8000_0000 {
                    proof {
                        lemma_decimal_nonneg(digits@);
                    }
                    Some((0i64 - v as i64) as i32)
                } else {
                    None
                }
            },
            None => None,
        }
    } else {
        proof {
            if is_decimal(s@) {
                lemma_decimal_nonneg(s@);
            }
        }
        match parse_u32(s) {
            Some(v) => {
                if v <= i32::MAX as u32 {
                    Some(v as i32)
                } else {
                    None
                }
            },
            None => None,
        }
    }
}

/// What follows `p` in `s`, when `s` starts with `p`.
pub open spec fn after_prefix(s: Seq<u8>, p: Seq<u8>) -> Option<Seq<u8>> {
    if s.len() >= p.len() && s.subrange(0, p.len() as int) == p {
        Some(s.subrange(p.len() as int, s.len() as int))
    } else {
        None
    }
}

/// `s` split at its first space, without the space.
pub open spec fn split_space(s: Seq<u8>) -> Option<(Seq<u8>, Seq<u8>)> {
    match first_index(s, 32) {
        Some(i) => Some((s.subrange(0, i), s.subrange(i + 1, s.len() as int))),
        None => None,
    }
}

/// What follows `p` in `s`, when `s` starts with `p`.
pub fn strip_prefix(s: &[u8], p: &[u8]) -> (r: Option<Vec<u8>>)
    ensures
        match r {
            Some(v) => after_prefix(s@, p@) == Some(v@),
            None => after_prefix(s@, p@) is None,
        },
{
    if s.len() < p.len() {
        return None;
    }
    let mut i: usize = 0;
    while i < p.len()
        invariant
            p@.len() <= s@.len(),
            i <= p@.len(),
            forall|j: int| 0 <= j < i ==> s@[j] == p@[j],
        decreases p@.len() - i,
    {
        if s[i] != p[i] {
            assert(s@.subrange(0, p@.len() as int)[i as int] != p@[i as int]);
            return None;
        }
        i += 1;
    }
    assert(s@.subrange(0, p@.len() as int) =~= p@);
    Some(slice_of(s, p.len(), s.len()))
}

/// `s` split at its first space, without the space.
pub fn split_at_space(s: &[u8]) -> (r: Option<(Vec<u8>, Vec<u8>)>)
    ensures
        match r {
            Some((a, b)) => split_space(s@) == Some((a@, b@)),
            None => split_space(s@) is None,
        },
{
    let n = s.len();
    match find_byte(s, 32) {
        Some(i) => {
            assert(i < n);
            Some((slice_of(s, 0, i), slice_of(s, i + 1, n)))
        },
        None => None,
    }
}

/// The pieces of `s` between bytes `sep`, in order; there is always at least one.
pub open spec fn pieces(s: Seq<u8>, sep: u8) -> Seq<Seq<u8>>
    decreases s.len(),
{
    if s.len() == 0 {
        seq![Seq::empty()]
    } else {
        let rest = pieces(s.drop_last(), sep);
        if s.last() == sep {
            rest.push(Seq::empty())
        } else {
            rest.update(rest.len() - 1, rest.last().push(s.last()))
        }
    }
}

proof fn lemma_pieces_nonempty(s: Seq<u8>, sep: u8)
    ensures
        pieces(s, sep).len() >= 1,
    decreases s.len(),
{
    if s.len() > 0 {
        lemma_pieces_nonempty(s.drop_last(), sep);
    }
}

/// Splits `s` at every byte `sep`.
pub fn split_by(s: &[u8], sep: u8) -> (r: Vec<Vec<u8>>)
    ensures
        views(r@) == pieces(s@, sep),
{
    let mut done: Vec<Vec<u8>> = Vec::new();
    let mut cur: Vec<u8> = Vec::new();
    let mut i: usize = 0;
    while i < s.len()
        invariant
            i <= s@.len(),
            views(done@).push(cur@) == pieces(s@.subrange(0, i as int), sep),
        decreases s@.len() - i,
    {
        proof {
            assert(s@.subrange(0, i + 1).drop_last() =~= s@.subrange(0, i as int));
            lemma_pieces_nonempty(s@.subrange(0, i as int), sep);
        }
        let ghost before = views(done@).push(cur@);
        if s[i] == sep {
            done.push(cur);
            cur = Vec::new();
            assert(views(done@).push(cur@) =~= before.push(Seq::empty()));
        } else {
            cur.push(s[i]);
            assert(views(done@).push(cur@) =~= before.update(before.len() - 1, before.last().push(s@[i as int])));
        }
        i += 1;
    }
    assert(s@.subrange(0, s@.len() as int) =~= s@);
    let ghost all = views(done@).push(cur@);
    done.push(cur);
    assert(views(done@) =~= all);
    done
}

/// Relies on `String`'s `FromIterator<char>`: the string of exactly those characters, in order.
#[verifier::external_body]
pub(crate) fn string_of(chars: Vec<char>) -> (r: String)
    ensures
        r@ == chars@,
{
    chars.into_iter().collect()
}

} // verus!
