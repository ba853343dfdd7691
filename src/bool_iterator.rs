use vstd::prelude::*;

use bitvec::order::Lsb0;
use bitvec::view::BitView;

verus! {

/// Two to the power `n`.
pub open spec fn two_to(n: nat) -> nat
    decreases n,
{
    if n == 0 {
        1
    } else {
        2 * two_to((n - 1) as nat)
    }
}

/// Bit `i` of `v`, counted from the least significant bit.
pub open spec fn bit_of(v: nat, i: nat) -> bool
    decreases i,
{
    if i == 0 {
        v % 2 == 1
    } else {
        bit_of(v / 2, (i - 1) as nat)
    }
}

/// The assignment of `width` values numbered `k`: position `i` holds bit `i`
/// of `k`.
pub open spec fn row(width: nat, k: nat) -> Seq<bool> {
    Seq::new(width, |i: int| bit_of(k, i as nat))
}

/// The number whose bits, least significant first, are the values of `b`.
pub open spec fn number_of(b: Seq<bool>) -> nat
    decreases b.len(),
{
    if b.len() == 0 {
        0
    } else {
        (if b[0] {
            1nat
        } else {
            0nat
        }) + 2 * number_of(b.drop_first())
    }
}

/// Relies on bitvec's `BitView::view_bits` in `Lsb0` order: position `i` of
/// the view of a `u32` is bit `i` of it, counted from the least significant
/// bit; the first `width` of them are taken.
#[verifier::external_body]
fn low_bits(value: u32, width: u8) -> (r: Vec<bool>)
    requires
        width <= 32,
    ensures
        r@ == row(width as nat, value as nat),
{
    value.view_bits::<Lsb0>().iter().by_vals().take(width as usize).collect()
}

/// Walks through every assignment of `width` boolean values, numbered
/// `0 .. 2^width`, in increasing order of their number.
pub struct BoolIterator {
    width: u8,
    value: u32,
}

impl BoolIterator {
    /// Number of values in each assignment.
    pub closed spec fn width_spec(&self) -> nat {
        self.width as nat
    }

    /// Number of the assignment that comes next.
    pub closed spec fn position(&self) -> nat {
        self.value as nat
    }

    /// The width fits a `u32` counter, and the counter stops at the last
    /// assignment.
    pub closed spec fn wf(&self) -> bool {
        self.width < 32 && self.value <= two_to(self.width as nat)
    }

    /// Starts at the first assignment of `width` values.
    pub fn new(width: u8) -> (r: BoolIterator)
        requires
            width < 32,
        ensures
            r.wf(),
            r.width_spec() == width,
            r.position() == 0,
    {
        BoolIterator { width, value: 0 }
    }

    /// The next assignment, while there is one. A width of zero has none.
    pub fn next(&mut self) -> (r: Option<Vec<bool>>)
        requires
            old(self).wf(),
        ensures
            final(self).wf(),
            final(self).width_spec() == old(self).width_spec(),
            final(self).position() <= two_to(final(self).width_spec()),
            r is Some <==> old(self).width_spec() > 0 && old(self).position() < two_to(
                old(self).width_spec(),
            ),
            r is Some ==> final(self).position() == old(self).position() + 1,
            r is None ==> final(self).position() == old(self).position(),
            r matches Some(v) ==> v@ == row(old(self).width_spec(), old(self).position()),
    {
        let mut bound: u32 = 1;
        let mut i: u8 = 0;
        proof {
            lemma_two_to_31();
        }
        while i < self.width
            invariant
                i <= self.width < 32,
                bound == two_to(i as nat),
                two_to(31) == 0x8000_0000,
            decreases self.width - i,
        {
            proof {
                lemma_two_to_monotone((i + 1) as nat, 31);
                assert(two_to((i + 1) as nat) == 2 * two_to(i as nat));
            }
            bound = bound * 2;
            i = i + 1;
        }
        if self.width == 0 || self.value >= bound {
            return None;
        }
        let item = low_bits(self.value, self.width);
        self.value = self.value + 1;
        Some(item)
    }
}

/// The bits of a number below `2^width` read back as that number.
proof fn lemma_number_of_row(width: nat, k: nat)
    requires
        k < two_to(width),
    ensures
        number_of(row(width, k)) == k,
    decreases width,
{
    if width > 0 {
        let r = row(width, k);
        assert(r.drop_first() =~= row((width - 1) as nat, k / 2));
        lemma_number_of_row((width - 1) as nat, k / 2);
    }
}

/// Every sequence of values is the assignment numbered by its bits.
proof fn lemma_row_of_number(b: Seq<bool>)
    ensures
        number_of(b) < two_to(b.len()),
        row(b.len(), number_of(b)) == b,
    decreases b.len(),
{
    if b.len() > 0 {
        let rest = b.drop_first();
        lemma_row_of_number(rest);
        let v = number_of(b);
        assert(v / 2 == number_of(rest));
        assert forall|i: int| 0 <= i < b.len() implies #[trigger] row(b.len(), v)[i] == b[i] by {
            if i > 0 {
                assert(row(rest.len(), number_of(rest))[i - 1] == rest[i - 1]);
            }
        }
        assert(row(b.len(), v) =~= b);
    } else {
        assert(row(0, 0) =~= b);
    }
}

/// The assignments of `width` values, for `width` at least one: `2^width`
/// of them, each of `width` values, no two alike, and every sequence of
/// `width` values among them.
pub proof fn lemma_rows_enumerate(width: nat)
    requires
        width >= 1,
    ensures
        forall|k: nat| k < two_to(width) ==> (#[trigger] row(width, k)).len() == width,
        forall|k1: nat, k2: nat|
            k1 < two_to(width) && k2 < two_to(width) && k1 != k2 ==> #[trigger] row(width, k1)
                != #[trigger] row(width, k2),
        forall|b: Seq<bool>|
            b.len() == width ==> exists|k: nat| k < two_to(width) && #[trigger] row(width, k) == b,
{
    assert forall|k1: nat, k2: nat|
        k1 < two_to(width) && k2 < two_to(width) && k1 != k2 implies #[trigger] row(width, k1)
        != #[trigger] row(width, k2) by {
        lemma_number_of_row(width, k1);
        lemma_number_of_row(width, k2);
    }
    assert forall|b: Seq<bool>| b.len() == width implies exists|k: nat|
        k < two_to(width) && #[trigger] row(width, k) == b by {
        lemma_row_of_number(b);
    }
}

proof fn lemma_two_to_31()
    ensures
        two_to(31) == 0x8000_0000,
{
    reveal_with_fuel(two_to, 32);
}

proof fn lemma_two_to_monotone(a: nat, b: nat)
    requires
        a <= b,
    ensures
        two_to(a) <= two_to(b),
    decreases b,
{
    if a < b {
        lemma_two_to_monotone(a, (b - 1) as nat);
    }
}

} // verus!
