//! Sums and peaks of runs of samples.
use crate::single::{lemma_abs_level, lemma_level_order, Single};
use vstd::prelude::*;

verus! {

/// The samples added to a start value, one after the other.
pub open spec fn added(start: Single, s: Seq<Single>) -> Single
    decreases s.len(),
{
    if s.len() == 0 {
        start
    } else {
        added(start, s.drop_last()).plus(s.last())
    }
}

/// The squares of the samples added to a start value, one after the other.
pub open spec fn energy(start: Single, s: Seq<Single>) -> Single
    decreases s.len(),
{
    if s.len() == 0 {
        start
    } else {
        energy(start, s.drop_last()).plus(s.last().times(s.last()))
    }
}

/// The largest value, and zero where none is above it.
pub open spec fn largest(s: Seq<Single>) -> Single
    decreases s.len(),
{
    if s.len() == 0 {
        Single::zero()
    } else {
        largest(s.drop_last()).max(s.last())
    }
}

/// The largest absolute value.
pub open spec fn loudest(s: Seq<Single>) -> Single
    decreases s.len(),
{
    if s.len() == 0 {
        Single::zero()
    } else {
        loudest(s.drop_last()).max(s.last().abs())
    }
}

/// The zero that a sum of samples starts from: it leaves even a negative zero as it is.
pub open spec fn spec_sum_start() -> Single {
    Single { bits: 0x8000_0000 }
}

/// The zero that a sum of samples starts from.
#[verifier::when_used_as_spec(spec_sum_start)]
pub fn sum_start() -> (r: Single)
    ensures
        r == spec_sum_start(),
{
    Single::from_bits(0x8000_0000)
}

/// Adds up the samples of a range.
pub fn add_range(start: Single, samples: &[Single], from: usize, to: usize) -> (r: Single)
    requires
        from <= to <= samples@.len(),
    ensures
        r == added(start, samples@.subrange(from as int, to as int)),
{
    let mut total = start;
    let mut i = from;
    while i < to
        invariant
            from <= i <= to <= samples@.len(),
            total == added(start, samples@.subrange(from as int, i as int)),
        decreases to - i,
    {
        total = total.plus(samples[i]);
        i = i + 1;
        assert(samples@.subrange(from as int, i as int).drop_last() =~= samples@.subrange(
            from as int,
            i - 1,
        ));
    }
    total
}

/// Adds up the squares of the samples of a range.
pub fn energy_range(start: Single, samples: &[Single], from: usize, to: usize) -> (r: Single)
    requires
        from <= to <= samples@.len(),
    ensures
        r == energy(start, samples@.subrange(from as int, to as int)),
{
    let mut total = start;
    let mut i = from;
    while i < to
        invariant
            from <= i <= to <= samples@.len(),
            total == energy(start, samples@.subrange(from as int, i as int)),
        decreases to - i,
    {
        total = total.plus(samples[i].times(samples[i]));
        i = i + 1;
        assert(samples@.subrange(from as int, i as int).drop_last() =~= samples@.subrange(
            from as int,
            i - 1,
        ));
    }
    total
}

/// The largest value of a range.
pub fn largest_range(values: &[Single], from: usize, to: usize) -> (r: Single)
    requires
        from <= to <= values@.len(),
    ensures
        r == largest(values@.subrange(from as int, to as int)),
{
    let mut top = Single::zero();
    let mut i = from;
    while i < to
        invariant
            from <= i <= to <= values@.len(),
            top == largest(values@.subrange(from as int, i as int)),
        decreases to - i,
    {
        top = top.max(values[i]);
        i = i + 1;
        assert(values@.subrange(from as int, i as int).drop_last() =~= values@.subrange(
            from as int,
            i - 1,
        ));
    }
    top
}

/// The largest absolute value of a range.
pub fn loudest_range(samples: &[Single], from: usize, to: usize) -> (r: Single)
    requires
        from <= to <= samples@.len(),
    ensures
        r == loudest(samples@.subrange(from as int, to as int)),
{
    let mut top = Single::zero();
    let mut i = from;
    while i < to
        invariant
            from <= i <= to <= samples@.len(),
            top == loudest(samples@.subrange(from as int, i as int)),
        decreases to - i,
    {
        top = top.max(samples[i].abs());
        i = i + 1;
        assert(samples@.subrange(from as int, i as int).drop_last() =~= samples@.subrange(
            from as int,
            i - 1,
        ));
    }
    top
}

/// The peak of a run is a level that no sample exceeds and that, but for silence, one reaches.
pub proof fn lemma_loudest(s: Seq<Single>)
    ensures
        loudest(s).is_level(),
        forall|i: int|
            0 <= i < s.len() && !s[i].is_nan() ==> (#[trigger] s[i]).abs().at_most(loudest(s)),
        loudest(s) == Single::zero() || exists|i: int|
            0 <= i < s.len() && loudest(s) == (#[trigger] s[i]).abs(),
    decreases s.len(),
{
    if s.len() > 0 {
        let rest = s.drop_last();
        lemma_loudest(rest);
        lemma_abs_level(s.last());
        let before = loudest(rest);
        let last = s.last().abs();
        if !s.last().is_nan() {
            lemma_level_order(before, last);
            lemma_level_order(last, before);
            lemma_level_order(last, last);
        } else {
            lemma_level_order(before, before);
            assert(!before.less(last)) by {
                reveal(Single::spec_less);
            }
        }
        assert forall|i: int| 0 <= i < s.len() && !s[i].is_nan() implies (#[trigger] s[i]).abs().at_most(
            loudest(s),
        ) by {
            lemma_abs_level(s[i]);
            lemma_level_order(s[i].abs(), loudest(s));
            if i < s.len() - 1 {
                assert(rest[i] == s[i]);
                lemma_level_order(s[i].abs(), before);
            }
        }
        if loudest(s) != Single::zero() {
            if loudest(s) == last {
                assert(loudest(s) == s[s.len() - 1].abs());
            } else {
                let i = choose|i: int| 0 <= i < rest.len() && before == (#[trigger] rest[i]).abs();
                assert(s[i] == rest[i]);
            }
        }
    }
}

/// A number above a level is a level.
proof fn lemma_above_level(a: Single, b: Single)
    requires
        a.is_level(),
        a.less(b),
    ensures
        b.is_level(),
{
    reveal(Single::spec_less);
}

/// The largest of some values is a level that none exceeds and that, but for zero, one reaches.
pub proof fn lemma_largest(s: Seq<Single>)
    ensures
        largest(s).is_level(),
        forall|i: int|
            0 <= i < s.len() && !s[i].is_nan() ==> (#[trigger] s[i]).at_most(largest(s)),
        largest(s) == Single::zero() || exists|i: int|
            0 <= i < s.len() && largest(s) == #[trigger] s[i],
    decreases s.len(),
{
    if s.len() > 0 {
        let rest = s.drop_last();
        lemma_largest(rest);
        let before = largest(rest);
        let last = s.last();
        lemma_level_order(before, before);
        if before.less(last) {
            lemma_above_level(before, last);
            assert(largest(s) == s[s.len() - 1]);
        } else if before != Single::zero() {
            let i = choose|i: int| 0 <= i < rest.len() && before == #[trigger] rest[i];
            assert(s[i] == rest[i]);
        }
        assert forall|i: int| 0 <= i < s.len() && !s[i].is_nan() implies (#[trigger] s[i]).at_most(
            largest(s),
        ) by {
            if i < s.len() - 1 {
                assert(rest[i] == s[i]);
            }
            reveal(Single::spec_less);
            reveal(Single::spec_at_most);
        }
    }
}

} // verus!
