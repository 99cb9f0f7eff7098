//! Shapes of tensors and the number of their elements.

use vstd::prelude::*;

verus! {

/// The number of elements of a shape.
pub open spec fn numel(shape: Seq<usize>) -> nat
    decreases shape.len(),
{
    if shape.len() == 0 {
        1
    } else {
        numel(shape.drop_last()) * (shape.last() as nat)
    }
}

/// Whether the product of the sizes, taken from the front, stays in the range of the machine.
pub open spec fn countable(shape: Seq<usize>) -> bool
    decreases shape.len(),
{
    shape.len() == 0 || (countable(shape.drop_last()) && numel(shape) <= usize::MAX)
}

proof fn lemma_countable_prefix(shape: Seq<usize>, i: int)
    requires
        0 <= i <= shape.len(),
        countable(shape),
    ensures
        countable(shape.take(i)),
    decreases shape.len(),
{
    if i < shape.len() {
        lemma_countable_prefix(shape.drop_last(), i);
        assert(shape.drop_last().take(i) =~= shape.take(i));
    } else {
        assert(shape.take(i) =~= shape);
    }
}

/// The number of elements of a shape, where the machine can count to it.
pub fn count(shape: &[usize]) -> (r: Option<usize>)
    ensures
        match r {
            Some(n) => countable(shape@) && n == numel(shape@),
            None => !countable(shape@),
        },
{
    let mut n: usize = 1;
    let mut i: usize = 0;
    while i < shape.len()
        invariant
            i <= shape@.len(),
            countable(shape@.take(i as int)),
            n == numel(shape@.take(i as int)),
        decreases shape.len() - i,
    {
        let ghost next = shape@.take(i + 1);
        assert(next.drop_last() =~= shape@.take(i as int));
        assert(numel(next) == n * shape@[i as int]);
        match n.checked_mul(shape[i]) {
            Some(m) => {
                n = m;
            },
            None => {
                proof {
                    if countable(shape@) {
                        lemma_countable_prefix(shape@, i + 1);
                    }
                }
                return None;
            },
        }
        i = i + 1;
    }
    assert(shape@.take(i as int) =~= shape@);
    Some(n)
}

/// A size put in front multiplies the number of elements.
pub proof fn lemma_numel_front(x: usize, s: Seq<usize>)
    ensures
        numel(seq![x] + s) == x * numel(s),
    decreases s.len(),
{
    let t = seq![x] + s;
    if s.len() == 0 {
        assert(t.drop_last() =~= Seq::<usize>::empty());
        assert(numel(t.drop_last()) == 1);
        assert(t.last() == x);
        assert(numel(t) == 1 * (x as nat));
        assert(numel(s) == 1);
    } else {
        assert(t.drop_last() =~= seq![x] + s.drop_last());
        lemma_numel_front(x, s.drop_last());
        assert(t.last() == s.last());
        assert(numel(s) == numel(s.drop_last()) * (s.last() as nat));
        assert(numel(t) == (x * numel(s.drop_last())) * (s.last() as nat));
        assert((x * numel(s.drop_last())) * (s.last() as nat) == x * (numel(s.drop_last()) * (
        s.last() as nat))) by (nonlinear_arith);
    }
}

/// A shape and its reverse have equally many elements.
pub proof fn lemma_numel_reverse(s: Seq<usize>)
    ensures
        numel(s.reverse()) == numel(s),
    decreases s.len(),
{
    if s.len() == 0 {
        assert(s.reverse() =~= s);
    } else {
        lemma_numel_reverse(s.drop_last());
        assert(s.reverse() =~= seq![s.last()] + s.drop_last().reverse());
        lemma_numel_front(s.last(), s.drop_last().reverse());
        assert(s.last() * numel(s.drop_last()) == numel(s.drop_last()) * (s.last() as nat))
            by (nonlinear_arith);
    }
}

/// The machine can count the elements of a shape without an empty dimension where their number is in
/// its range.
pub proof fn lemma_countable(s: Seq<usize>)
    ensures
        countable(s) ==> numel(s) <= usize::MAX,
        (forall|i: int| 0 <= i < s.len() ==> #[trigger] s[i] > 0) && numel(s) <= usize::MAX
            ==> countable(s),
        (forall|i: int| 0 <= i < s.len() ==> #[trigger] s[i] > 0) ==> numel(s) > 0,
    decreases s.len(),
{
    if s.len() > 0 {
        let d = s.drop_last();
        lemma_countable(d);
        if forall|i: int| 0 <= i < s.len() ==> #[trigger] s[i] > 0 {
            assert forall|i: int| 0 <= i < d.len() implies #[trigger] d[i] > 0 by {
                assert(d[i] == s[i]);
            }
            let (n, x) = (numel(d), s[s.len() - 1] as nat);
            assert(x > 0);
            assert(n * x >= n && n * x > 0) by (nonlinear_arith)
                requires
                    n > 0,
                    x > 0,
            ;
            assert(numel(s) == n * x);
        }
    }
}

} // verus!
