//! Algebraic capability traits for the range-aggregation engines: a `Monoid`
//! supplies the identity and the associative combine over element values, and
//! an `Action` supplies a tag type acting on elements (an endomorphism with
//! composition) for the lazy engine. Both carry their laws as proof
//! obligations, so every instantiation is checked, not assumed.

use vstd::prelude::*;

verus! {

/// An identity element plus an associative (possibly non-commutative) binary
/// combine over a value type.
pub trait Monoid: Sized + Copy {
    /// The identity element, at the specification level.
    spec fn spec_id() -> Self;

    /// The combine operation, at the specification level.
    spec fn spec_op(self, other: Self) -> Self;

    /// Law: the combine is associative.
    proof fn op_assoc(a: Self, b: Self, c: Self)
        ensures
            Self::spec_op(Self::spec_op(a, b), c) == Self::spec_op(a, Self::spec_op(b, c)),
    ;

    /// Law: the identity is neutral on the left.
    proof fn id_left(a: Self)
        ensures
            Self::spec_op(Self::spec_id(), a) == a,
    ;

    /// Law: the identity is neutral on the right.
    proof fn id_right(a: Self)
        ensures
            Self::spec_op(a, Self::spec_id()) == a,
    ;

    /// Returns the identity element.
    fn id() -> (r: Self)
        ensures
            r == Self::spec_id(),
    ;

    /// Combines `self` with `other`, in this order.
    fn op(&self, other: &Self) -> (r: Self)
        ensures
            r == Self::spec_op(*self, *other),
    ;
}

/// A tag type acting on monoid elements: an identity tag, a composition
/// (`comp(self, other)` means "apply `self` after `other`"), and the action
/// `map` itself, which must distribute over the monoid combine.
pub trait Action<T: Monoid>: Sized + Copy {
    /// The identity tag, at the specification level.
    spec fn spec_id() -> Self;

    /// Tag composition, at the specification level.
    spec fn spec_comp(self, other: Self) -> Self;

    /// The action of a tag on one element, at the specification level.
    spec fn spec_map(self, x: T) -> T;

    /// Law: the identity tag acts as the identity function.
    proof fn id_map(x: T)
        ensures
            Self::spec_map(Self::spec_id(), x) == x,
    ;

    /// Law: the identity tag is neutral for composition on the left.
    proof fn comp_id_left(t: Self)
        ensures
            Self::spec_comp(Self::spec_id(), t) == t,
    ;

    /// Law: the identity tag is neutral for composition on the right.
    proof fn comp_id_right(t: Self)
        ensures
            Self::spec_comp(t, Self::spec_id()) == t,
    ;

    /// Law: the action of a composite tag is the composition of the actions.
    proof fn comp_map(a: Self, b: Self, x: T)
        ensures
            Self::spec_map(Self::spec_comp(a, b), x) == Self::spec_map(a, Self::spec_map(b, x)),
    ;

    /// Law: the action distributes over the monoid combine.
    proof fn map_distributes(t: Self, x: T, y: T)
        ensures
            Self::spec_map(t, T::spec_op(x, y)) == T::spec_op(
                Self::spec_map(t, x),
                Self::spec_map(t, y),
            ),
    ;

    /// Returns the identity tag.
    fn id() -> (r: Self)
        ensures
            r == Self::spec_id(),
    ;

    /// Composes `self` after `other`.
    fn comp(&self, other: &Self) -> (r: Self)
        ensures
            r == Self::spec_comp(*self, *other),
    ;

    /// Applies the tag's effect to one element.
    fn map(&self, x: &T) -> (r: T)
        ensures
            r == Self::spec_map(*self, *x),
    ;
}

/// The left-to-right fold of `s[l..r]` under the monoid combine, starting from
/// the identity. This is the reference meaning of a range aggregate.
pub open spec fn fold<T: Monoid>(s: Seq<T>, l: int, r: int) -> T
    decreases r - l,
{
    if l >= r {
        T::spec_id()
    } else {
        T::spec_op(fold(s, l, r - 1), s[r - 1])
    }
}

/// A fold over a single element is that element.
pub proof fn lemma_fold_one<T: Monoid>(s: Seq<T>, i: int)
    ensures
        fold(s, i, i + 1) == s[i],
{
    reveal_with_fuel(fold, 2);
    T::id_left(s[i]);
}

/// Folds split at any midpoint: `fold(l, r) == op(fold(l, m), fold(m, r))`.
pub proof fn lemma_fold_split<T: Monoid>(s: Seq<T>, l: int, m: int, r: int)
    requires
        l <= m <= r,
    ensures
        fold(s, l, r) == T::spec_op(fold(s, l, m), fold(s, m, r)),
    decreases r - m,
{
    if m == r {
        T::id_right(fold(s, l, m));
    } else {
        lemma_fold_split(s, l, m, r - 1);
        T::op_assoc(fold(s, l, m), fold(s, m, r - 1), s[r - 1]);
    }
}

/// A fold reads only the entries of `s[l..r]`: two sequences that agree there
/// fold to the same value.
pub proof fn lemma_fold_congruent<T: Monoid>(s1: Seq<T>, s2: Seq<T>, l: int, r: int)
    requires
        forall|i: int| l <= i < r ==> #[trigger] s1[i] == s2[i],
    ensures
        fold(s1, l, r) == fold(s2, l, r),
    decreases r - l,
{
    if l < r {
        assert(s1[r - 1] == s2[r - 1]);
        lemma_fold_congruent(s1, s2, l, r - 1);
    }
}

/// Mapping a tag through a fold: acting on the fold of a range equals folding
/// the acted-on elements, provided the fold is non-empty.
pub proof fn lemma_map_fold<T: Monoid, A: Action<T>>(t: A, s1: Seq<T>, s2: Seq<T>, l: int, r: int)
    requires
        l < r,
        forall|i: int| l <= i < r ==> #[trigger] s2[i] == A::spec_map(t, s1[i]),
    ensures
        fold(s2, l, r) == A::spec_map(t, fold(s1, l, r)),
    decreases r - l,
{
    assert(s2[r - 1] == A::spec_map(t, s1[r - 1]));
    if l == r - 1 {
        lemma_fold_one(s1, l);
        lemma_fold_one(s2, l);
    } else {
        lemma_map_fold(t, s1, s2, l, r - 1);
        A::map_distributes(t, fold(s1, l, r - 1), s1[r - 1]);
    }
}

} // verus!
