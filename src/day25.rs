//! Balanced base-five numbers ("SNAFU"): digits `=` (-2), `-` (-1), `0`, `1` and `2`,
//! added digit by digit without converting to binary.
use vstd::prelude::*;
use vstd::arithmetic::power::pow;
use crate::text::{str_lines, string_of, text_lines, views};

verus! {

/// A balanced base-five digit.
#[derive(Clone, Copy, Debug, PartialEq, Eq)]
pub enum Quint {
    MinusTwo,
    MinusOne,
    Zero,
    One,
    Two,
}

/// The value of a digit.
pub open spec fn qv(q: Quint) -> int {
    match q {
        Quint::MinusTwo => -2,
        Quint::MinusOne => -1,
        Quint::Zero => 0,
        Quint::One => 1,
        Quint::Two => 2,
    }
}

/// The digit written as byte `b`.
pub open spec fn quint_of(b: u8) -> Option<Quint> {
    if b == 61 {
        Some(Quint::MinusTwo)
    } else if b == 45 {
        Some(Quint::MinusOne)
    } else if b == 48 {
        Some(Quint::Zero)
    } else if b == 49 {
        Some(Quint::One)
    } else if b == 50 {
        Some(Quint::Two)
    } else {
        None
    }
}

/// The character that writes digit `q`.
pub open spec fn char_of(q: Quint) -> char {
    match q {
        Quint::MinusTwo => '=',
        Quint::MinusOne => '-',
        Quint::Zero => '0',
        Quint::One => '1',
        Quint::Two => '2',
    }
}

/// The value of digits stored least significant first.
pub open spec fn value(qs: Seq<Quint>) -> int
    decreases qs.len(),
{
    if qs.len() == 0 {
        0
    } else {
        qv(qs[0]) + 5 * value(qs.drop_first())
    }
}

proof fn lemma_value_push(qs: Seq<Quint>, q: Quint)
    ensures
        value(qs.push(q)) == value(qs) + qv(q) * pow(5, qs.len() as nat),
    decreases qs.len(),
{
    vstd::arithmetic::power::lemma_pow0(5);
    if qs.len() > 0 {
        assert(qs.push(q).drop_first() =~= qs.drop_first().push(q));
        lemma_value_push(qs.drop_first(), q);
        vstd::arithmetic::power::lemma_pow_adds(5, 1, (qs.len() - 1) as nat);
        vstd::arithmetic::power::lemma_pow1(5);
        assert(pow(5, qs.len() as nat) == 5 * pow(5, (qs.len() - 1) as nat)) by {
            assert((1 + (qs.len() - 1)) as nat == qs.len() as nat);
        }
        assert(qs.push(q)[0] == qs[0]);
        assert(5 * (value(qs.drop_first()) + qv(q) * pow(5, (qs.len() - 1) as nat)) == 5 * value(qs.drop_first())
            + qv(q) * (5 * pow(5, (qs.len() - 1) as nat))) by (nonlinear_arith);
    } else {
        assert(qs.push(q).drop_first() =~= Seq::<Quint>::empty());
        assert(value(qs.push(q).drop_first()) == 0);
        assert(qs.push(q)[0] == q);
        assert(value(qs) == 0);
    }
}

/// Splitting digits at `i`: the low part plus `5^i` times the high part.
proof fn lemma_value_split(qs: Seq<Quint>, i: int)
    requires
        0 <= i <= qs.len(),
    ensures
        value(qs) == value(qs.subrange(0, i)) + pow(5, i as nat) * value(qs.subrange(i, qs.len() as int)),
    decreases i,
{
    vstd::arithmetic::power::lemma_pow0(5);
    if i == 0 {
        assert(qs.subrange(0, 0) =~= Seq::<Quint>::empty());
        assert(qs.subrange(0, qs.len() as int) =~= qs);
    } else {
        lemma_value_split(qs, i - 1);
        let hi = qs.subrange(i - 1, qs.len() as int);
        assert(hi.drop_first() =~= qs.subrange(i, qs.len() as int));
        assert(qs.subrange(0, i) =~= qs.subrange(0, i - 1).push(qs[i - 1]));
        lemma_value_push(qs.subrange(0, i - 1), qs[i - 1]);
        vstd::arithmetic::power::lemma_pow_adds(5, 1, (i - 1) as nat);
        vstd::arithmetic::power::lemma_pow1(5);
        let p = pow(5, (i - 1) as nat);
        assert(p * (qv(qs[i - 1]) + 5 * value(qs.subrange(i, qs.len() as int))) == qv(qs[i - 1]) * p + (5 * p) * value(
            qs.subrange(i, qs.len() as int),
        )) by (nonlinear_arith);
    }
}

impl Quint {
    /// The digit written as `value`; `None` for any other byte.
    pub fn try_from(value: u8) -> (r: Option<Quint>)
        ensures
            r == quint_of(value),
    {
        if value == 61 {
            Some(Quint::MinusTwo)
        } else if value == 45 {
            Some(Quint::MinusOne)
        } else if value == 48 {
            Some(Quint::Zero)
        } else if value == 49 {
            Some(Quint::One)
        } else if value == 50 {
            Some(Quint::Two)
        } else {
            None
        }
    }

    /// The character that writes this digit.
    pub fn to_char(self) -> (r: char)
        ensures
            r == char_of(self),
    {
        match self {
            Quint::MinusTwo => '=',
            Quint::MinusOne => '-',
            Quint::Zero => '0',
            Quint::One => '1',
            Quint::Two => '2',
        }
    }

    fn to_value(self) -> (r: i8)
        ensures
            r == qv(self),
    {
        match self {
            Quint::MinusTwo => -2,
            Quint::MinusOne => -1,
            Quint::Zero => 0,
            Quint::One => 1,
            Quint::Two => 2,
        }
    }

    fn from_value(v: i8) -> (r: Quint)
        requires
            -2 <= v <= 2,
        ensures
            qv(r) == v,
    {
        if v == -2 {
            Quint::MinusTwo
        } else if v == -1 {
            Quint::MinusOne
        } else if v == 0 {
            Quint::Zero
        } else if v == 1 {
            Quint::One
        } else {
            Quint::Two
        }
    }

    /// Half-adds two digits: the sum digit and the carry, with
    /// `sum + 5 * carry == self + other`.
    pub fn add(self, other: Quint) -> (r: (Quint, Quint))
        ensures
            qv(r.0) + 5 * qv(r.1) == qv(self) + qv(other),
            -1 <= qv(r.1) <= 1,
    {
        let s = self.to_value() + other.to_value();
        if s > 2 {
            (Quint::from_value(s - 5), Quint::One)
        } else if s < -2 {
            (Quint::from_value(s + 5), Quint::MinusOne)
        } else {
            (Quint::from_value(s), Quint::Zero)
        }
    }
}

/// A number as balanced base-five digits, least significant first.
pub struct BalancedQuinary {
    pub quints: Vec<Quint>,
}

/// The digits written by `s`, most significant first, stored least significant first;
/// `None` when a byte is not a digit.
pub open spec fn digits_text(s: Seq<u8>) -> Option<Seq<Quint>> {
    if forall|k: int| 0 <= k < s.len() ==> quint_of(#[trigger] s[k]) is Some {
        Some(Seq::new(s.len(), |k: int| quint_of(s[s.len() - 1 - k])->Some_0))
    } else {
        None
    }
}

impl BalancedQuinary {
    /// Reads a number written most significant digit first.
    pub fn from_str(s: &[u8]) -> (r: Option<BalancedQuinary>)
        ensures
            match r {
                Some(n) => digits_text(s@) == Some(n.quints@),
                None => digits_text(s@) is None,
            },
    {
        let mut quints: Vec<Quint> = Vec::new();
        let n = s.len();
        let mut k: usize = 0;
        while k < n
            invariant
                n == s@.len(),
                k <= n,
                quints@.len() == k,
                forall|j: int| n - k <= j < n ==> quint_of(#[trigger] s@[j]) is Some,
                forall|j: int| 0 <= j < k ==> quints@[j] == quint_of(s@[n - 1 - j])->Some_0,
            decreases n - k,
        {
            match Quint::try_from(s[n - 1 - k]) {
                Some(q) => quints.push(q),
                None => {
                    return None;
                },
            }
            k += 1;
        }
        assert(quints@ =~= Seq::new(s@.len(), |k: int| quint_of(s@[s@.len() - 1 - k])->Some_0));
        Some(BalancedQuinary { quints })
    }

    /// The digits most significant first, as characters.
    pub fn to_chars(&self) -> (r: Vec<char>)
        ensures
            r@ == Seq::new(self.quints@.len(), |k: int| char_of(self.quints@[self.quints@.len() - 1 - k])),
    {
        let n = self.quints.len();
        let mut r: Vec<char> = Vec::new();
        let mut k: usize = 0;
        while k < n
            invariant
                n == self.quints@.len(),
                k <= n,
                r@ =~= Seq::new(k as nat, |j: int| char_of(self.quints@[n - 1 - j])),
            decreases n - k,
        {
            r.push(self.quints[n - 1 - k].to_char());
            k += 1;
        }
        r
    }

    /// Zero, as the single digit `0`.
    pub fn zero() -> (r: BalancedQuinary)
        ensures
            r.quints@ == seq![Quint::Zero],
    {
        BalancedQuinary { quints: vec![Quint::Zero] }
    }

    /// Whether this is zero written with at most one digit.
    pub fn is_zero(&self) -> (r: bool)
        ensures
            r == (self.quints@.len() == 0 || (self.quints@.len() == 1 && self.quints@[0] == Quint::Zero)),
    {
        self.quints.len() == 0 || (self.quints.len() == 1 && matches!(self.quints[0], Quint::Zero))
    }

    /// The sum, added digit by digit with a carry; never empty.
    pub fn add(self, rhs: BalancedQuinary) -> (r: BalancedQuinary)
        requires
            self.quints@.len() < usize::MAX,
            rhs.quints@.len() < usize::MAX,
        ensures
            value(r.quints@) == value(self.quints@) + value(rhs.quints@),
            r.quints@.len() >= 1,
            r.quints@.len() <= 1 + if self.quints@.len() >= rhs.quints@.len() { self.quints@.len() } else { rhs.quints@.len() },
    {
        let a = &self.quints;
        let b = &rhs.quints;
        let ghost target = value(a@) + value(b@);
        let mut quints: Vec<Quint> = Vec::new();
        let mut carry = Quint::Zero;
        let shorter_len = if a.len() <= b.len() { a.len() } else { b.len() };
        let mut i: usize = 0;
        proof {
            lemma_value_split(a@, 0);
            lemma_value_split(b@, 0);
            vstd::arithmetic::power::lemma_pow0(5);
        }
        while i < shorter_len
            invariant
                shorter_len <= a@.len(),
                shorter_len <= b@.len(),
                i <= shorter_len,
                quints@.len() == i,
                -1 <= qv(carry) <= 1,
                target == value(a@) + value(b@),
                value(quints@) + pow(5, i as nat) * (qv(carry) + value(a@.subrange(i as int, a@.len() as int)) + value(
                    b@.subrange(i as int, b@.len() as int),
                )) == target,
            decreases shorter_len - i,
        {
            let (quint_sum, generated_carry) = a[i].add(b[i]);
            let (sum, propagated_carry) = quint_sum.add(carry);
            let (total_carry, _) = generated_carry.add(propagated_carry);
            proof {
                lemma_step(quints@, sum, total_carry, carry, a@, b@, i as int, target);
            }
            quints.push(sum);
            carry = total_carry;
            i += 1;
        }
        proof {
            assert(a@.subrange(a@.len() as int, a@.len() as int) =~= Seq::<Quint>::empty());
            assert(b@.subrange(b@.len() as int, b@.len() as int) =~= Seq::<Quint>::empty());
        }
        let longer_len = if a.len() > shorter_len { a.len() } else { b.len() };
        if a.len() > shorter_len {
            assert(b@.subrange(shorter_len as int, b@.len() as int) =~= Seq::<Quint>::empty());
            carry = propagate(&mut quints, carry, a, shorter_len);
        } else {
            assert(a@.subrange(shorter_len as int, a@.len() as int) =~= Seq::<Quint>::empty());
            carry = propagate(&mut quints, carry, b, shorter_len);
        }
        assert(quints@.len() == longer_len);
        assert(value(quints@) + pow(5, longer_len as nat) * qv(carry) == target);
        let carry_is_zero = match carry {
            Quint::Zero => true,
            _ => false,
        };
        if !carry_is_zero {
            proof {
                lemma_value_push(quints@, carry);
            }
            quints.push(carry);
        } else {
            assert(qv(carry) == 0);
            assert(pow(5, longer_len as nat) * qv(carry) == 0) by (nonlinear_arith)
                requires
                    qv(carry) == 0,
            ;
        }
        assert(value(quints@) == target);
        if quints.len() == 0 {
            quints.push(Quint::Zero);
            assert(value(quints@) == 0) by {
                assert(quints@.drop_first() =~= Seq::<Quint>::empty());
            }
        }
        BalancedQuinary { quints }
    }
}

/// One step of the two-number loop keeps the running sum right.
proof fn lemma_step(
    done: Seq<Quint>,
    sum: Quint,
    total_carry: Quint,
    carry: Quint,
    a: Seq<Quint>,
    b: Seq<Quint>,
    i: int,
    target: int,
)
    requires
        0 <= i < a.len(),
        i < b.len(),
        done.len() == i,
        qv(sum) + 5 * qv(total_carry) == qv(a[i]) + qv(b[i]) + qv(carry),
        value(done) + pow(5, i as nat) * (qv(carry) + value(a.subrange(i, a.len() as int)) + value(
            b.subrange(i, b.len() as int),
        )) == target,
    ensures
        value(done.push(sum)) + pow(5, (i + 1) as nat) * (qv(total_carry) + value(a.subrange(i + 1, a.len() as int))
            + value(b.subrange(i + 1, b.len() as int))) == target,
{
    lemma_value_push(done, sum);
    assert(a.subrange(i, a.len() as int).drop_first() =~= a.subrange(i + 1, a.len() as int));
    assert(b.subrange(i, b.len() as int).drop_first() =~= b.subrange(i + 1, b.len() as int));
    vstd::arithmetic::power::lemma_pow_adds(5, 1, i as nat);
    vstd::arithmetic::power::lemma_pow1(5);
    let p = pow(5, i as nat);
    let ra = value(a.subrange(i + 1, a.len() as int));
    let rb = value(b.subrange(i + 1, b.len() as int));
    assert(p * (qv(carry) + (qv(a[i]) + 5 * ra) + (qv(b[i]) + 5 * rb)) == qv(sum) * p + (5 * p) * (qv(total_carry) + ra
        + rb)) by (nonlinear_arith)
        requires
            qv(sum) + 5 * qv(total_carry) == qv(a[i]) + qv(b[i]) + qv(carry),
    ;
}

/// Adds `carry` into the digits `rest[from..]`, appending the sum digits to `quints`;
/// returns the carry out.
fn propagate(quints: &mut Vec<Quint>, carry: Quint, rest: &Vec<Quint>, from: usize) -> (r: Quint)
    requires
        from <= rest@.len(),
        old(quints)@.len() == from,
        -1 <= qv(carry) <= 1,
    ensures
        final(quints)@.len() == rest@.len(),
        -1 <= qv(r) <= 1,
        value(final(quints)@) + pow(5, rest@.len() as nat) * qv(r) == value(old(quints)@) + pow(5, from as nat) * (qv(
            carry,
        ) + value(rest@.subrange(from as int, rest@.len() as int))),
{
    let ghost target = value(quints@) + pow(5, from as nat) * (qv(carry) + value(rest@.subrange(from as int, rest@.len() as int)));
    let mut c = carry;
    let mut i: usize = from;
    while i < rest.len()
        invariant
            from <= i <= rest@.len(),
            quints@.len() == i,
            -1 <= qv(c) <= 1,
            value(quints@) + pow(5, i as nat) * (qv(c) + value(rest@.subrange(i as int, rest@.len() as int))) == target,
        decreases rest@.len() - i,
    {
        let (sum, next) = c.add(rest[i]);
        proof {
            lemma_value_push(quints@, sum);
            assert(rest@.subrange(i as int, rest@.len() as int).drop_first() =~= rest@.subrange(i + 1, rest@.len() as int));
            vstd::arithmetic::power::lemma_pow_adds(5, 1, i as nat);
            vstd::arithmetic::power::lemma_pow1(5);
            assert((1 + i) as nat == (i + 1) as nat);
            let p = pow(5, i as nat);
            let rr = value(rest@.subrange(i + 1, rest@.len() as int));
            assert(p * (qv(c) + (qv(rest@[i as int]) + 5 * rr)) == qv(sum) * p + (5 * p) * (qv(next) + rr)) by (nonlinear_arith)
                requires
                    qv(sum) + 5 * qv(next) == qv(c) + qv(rest@[i as int]),
            ;
        }
        quints.push(sum);
        c = next;
        i += 1;
    }
    assert(rest@.subrange(rest@.len() as int, rest@.len() as int) =~= Seq::<Quint>::empty());
    c
}


/// The sum of the values of `ns`.
pub open spec fn total(ns: Seq<Seq<Quint>>) -> int
    decreases ns.len(),
{
    if ns.len() == 0 {
        0
    } else {
        total(ns.drop_last()) + value(ns.last())
    }
}

/// The digit sequences of the lines of `ls` that are numbers; other lines are skipped.
pub open spec fn numbers_of(ls: Seq<Seq<u8>>) -> Seq<Seq<Quint>>
    decreases ls.len(),
{
    if ls.len() == 0 {
        Seq::empty()
    } else {
        match digits_text(ls.last()) {
            Some(q) => numbers_of(ls.drop_last()).push(q),
            None => numbers_of(ls.drop_last()),
        }
    }
}

/// The value of characters written most significant first.
pub open spec fn char_value(cs: Seq<char>) -> int
    decreases cs.len(),
{
    if cs.len() == 0 {
        0
    } else {
        char_value(cs.drop_last()) * 5 + match cs.last() {
            '=' => -2int,
            '-' => -1int,
            '1' => 1int,
            '2' => 2int,
            _ => 0int,
        }
    }
}

/// The characters of digits `q`, most significant first.
pub open spec fn render(q: Seq<Quint>) -> Seq<char> {
    Seq::new(q.len(), |k: int| char_of(q[q.len() - 1 - k]))
}

proof fn lemma_render_value(q: Seq<Quint>)
    ensures
        char_value(render(q)) == value(q),
    decreases q.len(),
{
    if q.len() > 0 {
        lemma_render_value(q.drop_first());
        assert(render(q).drop_last() =~= render(q.drop_first()));
        assert(render(q).last() == char_of(q[0]));
    }
}

impl BalancedQuinary {
    /// The same number without zero digits above the most significant nonzero one (one
    /// digit `0` stays for zero).
    pub fn trimmed(self) -> (r: BalancedQuinary)
        requires
            self.quints@.len() >= 1,
        ensures
            value(r.quints@) == value(self.quints@),
            r.quints@.len() >= 1,
            r.quints@.len() == 1 || r.quints@.last() != Quint::Zero,
    {
        let mut quints = self.quints;
        while quints.len() > 1 && matches!(quints[quints.len() - 1], Quint::Zero)
            invariant
                quints@.len() >= 1,
                value(quints@) == value(self.quints@),
            decreases quints@.len(),
        {
            let ghost before = quints@;
            quints.pop();
            proof {
                assert(before =~= quints@.push(Quint::Zero));
                lemma_value_push(quints@, Quint::Zero);
            }
        }
        BalancedQuinary { quints }
    }

    /// The sum of `numbers`, from zero.
    pub fn sum(numbers: Vec<BalancedQuinary>) -> (r: BalancedQuinary)
        requires
            numbers@.len() < usize::MAX / 2,
            forall|k: int| 0 <= k < numbers@.len() ==> (#[trigger] numbers@[k]).quints@.len() < usize::MAX / 2,
        ensures
            value(r.quints@) == total(numbers@.map_values(|n: BalancedQuinary| n.quints@)),
            r.quints@.len() >= 1,
    {
        let ghost ns = numbers@.map_values(|n: BalancedQuinary| n.quints@);
        let mut acc = BalancedQuinary::zero();
        let ghost all = numbers@;
        let mut taken: usize = 0;
        proof {
            assert(ns.subrange(0, 0) =~= Seq::<Seq<Quint>>::empty());
            assert(acc.quints@.drop_first() =~= Seq::<Quint>::empty());
            assert(value(acc.quints@.drop_first()) == 0);
            assert(value(acc.quints@) == qv(acc.quints@[0]) + 5 * value(acc.quints@.drop_first()));
            assert(value(acc.quints@) == 0);
            assert(total(ns.subrange(0, 0)) == 0);
        }
        while taken < numbers.len()
            invariant
                numbers@ == all,
                ns == all.map_values(|n: BalancedQuinary| n.quints@),
                all.len() < usize::MAX / 2,
                forall|k: int| 0 <= k < all.len() ==> (#[trigger] all[k]).quints@.len() < usize::MAX / 2,
                taken <= all.len(),
                acc.quints@.len() >= 1,
                acc.quints@.len() <= usize::MAX / 2 + taken,
                value(acc.quints@) == total(ns.subrange(0, taken as int)),
            decreases all.len() - taken,
        {
            let next = BalancedQuinary { quints: numbers[taken].quints.clone() };
            assert(next.quints@ == all[taken as int].quints@);
            assert(ns.subrange(0, taken + 1).drop_last() =~= ns.subrange(0, taken as int));
            acc = acc.add(next);
            taken += 1;
        }
        assert(ns.subrange(0, all.len() as int) =~= ns);
        acc
    }
}

/// The sum of the numbers on the lines of `input` (lines that are not numbers are
/// skipped), written in balanced base five.
pub fn part1(input: &str) -> (r: String)
    requires
        text_lines(input).len() < usize::MAX / 2,
        forall|k: int| 0 <= k < text_lines(input).len() ==> (#[trigger] text_lines(input)[k]).len() < usize::MAX / 2,
    ensures
        char_value(r@) == total(numbers_of(text_lines(input))),
        r@.len() >= 1,
        r@.len() == 1 || r@[0] != '0',
        forall|k: int| 0 <= k < r@.len() ==> (#[trigger] r@[k] == '=' || r@[k] == '-' || r@[k] == '0' || r@[k] == '1' || r@[k] == '2'),
{
    let rows = str_lines(input);
    let ghost ls = views(rows@);
    let mut numbers: Vec<BalancedQuinary> = Vec::new();
    let mut i: usize = 0;
    while i < rows.len()
        invariant
            ls == views(rows@),
            ls == text_lines(input),
            ls.len() < usize::MAX / 2,
            forall|k: int| 0 <= k < ls.len() ==> (#[trigger] ls[k]).len() < usize::MAX / 2,
            i <= ls.len(),
            numbers@.len() <= i,
            forall|k: int| 0 <= k < numbers@.len() ==> (#[trigger] numbers@[k]).quints@.len() < usize::MAX / 2,
            numbers@.map_values(|n: BalancedQuinary| n.quints@) == numbers_of(ls.subrange(0, i as int)),
        decreases ls.len() - i,
    {
        assert(ls.subrange(0, i + 1).drop_last() =~= ls.subrange(0, i as int));
        assert(rows@[i as int]@ == ls[i as int]);
        let ghost before = numbers@;
        match BalancedQuinary::from_str(rows[i].as_slice()) {
            Some(n) => {
                numbers.push(n);
                assert(numbers@.map_values(|n: BalancedQuinary| n.quints@) =~= before.map_values(
                    |n: BalancedQuinary| n.quints@,
                ).push(n.quints@));
            },
            None => {},
        }
        i += 1;
    }
    assert(ls.subrange(0, ls.len() as int) =~= ls);
    let total = BalancedQuinary::sum(numbers).trimmed();
    let chars = total.to_chars();
    proof {
        lemma_render_value(total.quints@);
        assert(chars@ =~= render(total.quints@));
    }
    string_of(chars)
}

} // verus!
