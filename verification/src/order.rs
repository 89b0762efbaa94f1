//! Lexicographic order on sequences of numbers.

use vstd::prelude::*;

verus! {

/// How one value stands to another in a total order.
#[derive(Clone, Copy, Debug, PartialEq, Eq, Structural)]
pub enum Order {
    Less,
    Equal,
    Greater,
}

/// Dictionary order: the first position where `a` and `b` differ decides, and
/// a sequence comes before each of its proper extensions.
pub open spec fn code_order(a: Seq<u32>, b: Seq<u32>) -> Order
    decreases a.len(),
{
    if a.len() == 0 {
        if b.len() == 0 {
            Order::Equal
        } else {
            Order::Less
        }
    } else if b.len() == 0 {
        Order::Greater
    } else if a[0] < b[0] {
        Order::Less
    } else if a[0] > b[0] {
        Order::Greater
    } else {
        code_order(a.drop_first(), b.drop_first())
    }
}

/// `code_order` answers `Equal` exactly on equal sequences.
pub proof fn lemma_order_equal(a: Seq<u32>, b: Seq<u32>)
    ensures
        code_order(a, b) == Order::Equal <==> a == b,
    decreases a.len(),
{
    if a.len() > 0 && b.len() > 0 {
        lemma_order_equal(a.drop_first(), b.drop_first());
        if a[0] == b[0] && a.drop_first() == b.drop_first() {
            assert(a =~= seq![a[0]] + a.drop_first());
            assert(b =~= seq![b[0]] + b.drop_first());
        }
    } else if a.len() == 0 && b.len() == 0 {
        assert(a =~= b);
    }
}

/// Swapping the arguments swaps `Less` and `Greater`.
pub proof fn lemma_order_flip(a: Seq<u32>, b: Seq<u32>)
    ensures
        code_order(a, b) == Order::Less <==> code_order(b, a) == Order::Greater,
        code_order(a, b) == Order::Greater <==> code_order(b, a) == Order::Less,
        code_order(a, b) == Order::Equal <==> code_order(b, a) == Order::Equal,
    decreases a.len(),
{
    if a.len() > 0 && b.len() > 0 {
        lemma_order_flip(a.drop_first(), b.drop_first());
    }
}

/// `Less` is transitive.
pub proof fn lemma_order_trans(a: Seq<u32>, b: Seq<u32>, c: Seq<u32>)
    requires
        code_order(a, b) == Order::Less,
        code_order(b, c) == Order::Less,
    ensures
        code_order(a, c) == Order::Less,
    decreases a.len(),
{
    if a.len() > 0 && b.len() > 0 && c.len() > 0 {
        if a[0] == b[0] && b[0] == c[0] {
            lemma_order_trans(a.drop_first(), b.drop_first(), c.drop_first());
        }
    }
}

/// Compares two sequences in dictionary order.
pub fn compare_codes(a: &Vec<u32>, b: &Vec<u32>) -> (r: Order)
    ensures
        r == code_order(a@, b@),
{
    let mut i: usize = 0;
    proof {
        assert(a@.skip(0) =~= a@);
        assert(b@.skip(0) =~= b@);
    }
    while i < a.len() && i < b.len()
        invariant
            i <= a.len(),
            i <= b.len(),
            code_order(a@, b@) == code_order(a@.skip(i as int), b@.skip(i as int)),
        decreases a.len() - i,
    {
        proof {
            assert(a@.skip(i as int).drop_first() =~= a@.skip(i + 1));
            assert(b@.skip(i as int).drop_first() =~= b@.skip(i + 1));
        }
        if a[i] < b[i] {
            return Order::Less;
        }
        if a[i] > b[i] {
            return Order::Greater;
        }
        i += 1;
    }
    if i < b.len() {
        Order::Less
    } else if i < a.len() {
        Order::Greater
    } else {
        Order::Equal
    }
}

} // verus!
