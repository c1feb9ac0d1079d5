//! Small vectors of integers.

use crate::Vec2;
use glam::{IVec2, IVec3, IVec4};
use vstd::prelude::*;

verus! {

/// `glam::IVec2::dot` on the vectors with the given components: the sum of
/// the products of the components, computed in `i32` from left to right. It
/// overflows where a product or a partial sum leaves `i32`, which the
/// precondition rules out.
#[verifier::external_body]
pub(crate) fn dot2(a: [i32; 2], b: [i32; 2]) -> (r: i32)
    requires
        i32::MIN <= a[0] * b[0] <= i32::MAX,
        i32::MIN <= a[1] * b[1] <= i32::MAX,
        i32::MIN <= a[0] * b[0] + a[1] * b[1] <= i32::MAX,
    ensures
        r == a[0] * b[0] + a[1] * b[1],
{
    IVec2::from_array(a).dot(IVec2::from_array(b))
}

/// `glam::IVec3::dot` on the vectors with the given components: the sum of
/// the products of the components, computed in `i32` from left to right. It
/// overflows where a product or a partial sum leaves `i32`, which the
/// precondition rules out.
#[verifier::external_body]
pub(crate) fn dot3(a: [i32; 3], b: [i32; 3]) -> (r: i32)
    requires
        i32::MIN <= a[0] * b[0] <= i32::MAX,
        i32::MIN <= a[1] * b[1] <= i32::MAX,
        i32::MIN <= a[2] * b[2] <= i32::MAX,
        i32::MIN <= a[0] * b[0] + a[1] * b[1] <= i32::MAX,
        i32::MIN <= a[0] * b[0] + a[1] * b[1] + a[2] * b[2] <= i32::MAX,
    ensures
        r == a[0] * b[0] + a[1] * b[1] + a[2] * b[2],
{
    IVec3::from_array(a).dot(IVec3::from_array(b))
}

/// `glam::IVec4::dot` on the vectors with the given components: the sum of
/// the products of the components, computed in `i32` from left to right. It
/// overflows where a product or a partial sum leaves `i32`, which the
/// precondition rules out.
#[verifier::external_body]
pub(crate) fn dot4(a: [i32; 4], b: [i32; 4]) -> (r: i32)
    requires
        i32::MIN <= a[0] * b[0] <= i32::MAX,
        i32::MIN <= a[1] * b[1] <= i32::MAX,
        i32::MIN <= a[2] * b[2] <= i32::MAX,
        i32::MIN <= a[3] * b[3] <= i32::MAX,
        i32::MIN <= a[0] * b[0] + a[1] * b[1] <= i32::MAX,
        i32::MIN <= a[0] * b[0] + a[1] * b[1] + a[2] * b[2] <= i32::MAX,
        i32::MIN <= a[0] * b[0] + a[1] * b[1] + a[2] * b[2] + a[3] * b[3] <= i32::MAX,
    ensures
        r == a[0] * b[0] + a[1] * b[1] + a[2] * b[2] + a[3] * b[3],
{
    IVec4::from_array(a).dot(IVec4::from_array(b))
}

/// The sum of the squares of the first `n` components.
pub open spec fn sum_squares(v: Seq<i32>, n: int) -> int
    decreases n,
{
    if n <= 0 {
        0
    } else {
        sum_squares(v, n - 1) + v[n - 1] * v[n - 1]
    }
}

/// The square of the length of a vector.
pub trait DotExt: Sized {
    /// The components.
    spec fn components(self) -> Seq<i32>;

    /// The sum of the squares of the components, where every partial sum
    /// fits `i32`.
    fn lengthSquared(self) -> (r: i32)
        requires
            forall|n: int|
                0 <= n <= self.components().len() ==> #[trigger] sum_squares(self.components(), n)
                    <= i32::MAX,
        ensures
            r == sum_squares(self.components(), self.components().len() as int),
    ;
}

/// A square is not negative, and the squares of the components are no more
/// than their sum.
proof fn lemma_squares(v: Seq<i32>, n: int)
    requires
        0 <= n <= v.len(),
    ensures
        0 <= sum_squares(v, n),
        forall|k: int| 0 <= k < n ==> 0 <= #[trigger] (v[k] * v[k]) <= sum_squares(v, n),
    decreases n,
{
    if n > 0 {
        lemma_squares(v, n - 1);
        let x = v[n - 1] as int;
        assert(0 <= x * x) by (nonlinear_arith);
    }
}

impl DotExt for [i32; 2] {
    open spec fn components(self) -> Seq<i32> {
        self@
    }

    fn lengthSquared(self) -> (r: i32) {
        proof {
            reveal_with_fuel(sum_squares, 3);
            lemma_squares(self@, 2);
            assert(self.components().len() >= 1 && sum_squares(self.components(), 1) <= i32::MAX);
            assert(self.components().len() >= 2 && sum_squares(self.components(), 2) <= i32::MAX);
        }
        dot2(self, self)
    }
}

impl DotExt for [i32; 3] {
    open spec fn components(self) -> Seq<i32> {
        self@
    }

    fn lengthSquared(self) -> (r: i32) {
        proof {
            reveal_with_fuel(sum_squares, 4);
            lemma_squares(self@, 3);
            assert(self.components().len() >= 1 && sum_squares(self.components(), 1) <= i32::MAX);
            assert(self.components().len() >= 2 && sum_squares(self.components(), 2) <= i32::MAX);
            assert(self.components().len() >= 3 && sum_squares(self.components(), 3) <= i32::MAX);
        }
        dot3(self, self)
    }
}

impl DotExt for [i32; 4] {
    open spec fn components(self) -> Seq<i32> {
        self@
    }

    fn lengthSquared(self) -> (r: i32) {
        proof {
            reveal_with_fuel(sum_squares, 5);
            lemma_squares(self@, 4);
            assert(self.components().len() >= 1 && sum_squares(self.components(), 1) <= i32::MAX);
            assert(self.components().len() >= 2 && sum_squares(self.components(), 2) <= i32::MAX);
            assert(self.components().len() >= 3 && sum_squares(self.components(), 3) <= i32::MAX);
            assert(self.components().len() >= 4 && sum_squares(self.components(), 4) <= i32::MAX);
        }
        dot4(self, self)
    }
}

/// `a + b` modulo `2^BITS`.
pub open spec fn wrapping_sum(a: int, b: int) -> int {
    if a + b > usize::MAX {
        a + b - usize::MAX - 1
    } else {
        a + b
    }
}

/// `-a` modulo `2^BITS`.
pub open spec fn wrapping_neg(a: int) -> int {
    if a == 0 {
        0
    } else {
        usize::MAX + 1 - a
    }
}

/// Arithmetic on points, component by component and modulo `2^BITS`, so
/// that a point plus the negative of an offset is the point moved back.
pub trait Vec2Ext: Sized {
    /// The two components.
    spec fn xy(self) -> (int, int);

    /// The negative of each component.
    fn neg(self) -> (r: Self)
        ensures
            r.xy() == (wrapping_neg(self.xy().0), wrapping_neg(self.xy().1)),
    ;

    /// The sum of the components.
    fn add(self, rhs: Self) -> (r: Self)
        ensures
            r.xy() == (
                wrapping_sum(self.xy().0, rhs.xy().0),
                wrapping_sum(self.xy().1, rhs.xy().1),
            ),
    ;

    /// Adds `rhs` to `self`.
    fn addAssign(&mut self, rhs: Self)
        ensures
            final(self).xy() == (
                wrapping_sum(old(self).xy().0, rhs.xy().0),
                wrapping_sum(old(self).xy().1, rhs.xy().1),
            ),
    ;

    /// Each component divided by `rhs`.
    fn div(self, rhs: usize) -> (r: Self)
        requires
            rhs > 0,
        ensures
            r.xy() == (self.xy().0 / (rhs as int), self.xy().1 / (rhs as int)),
    ;
}

impl Vec2Ext for Vec2 {
    open spec fn xy(self) -> (int, int) {
        (self[0] as int, self[1] as int)
    }

    fn neg(self) -> (r: Self) {
        [0usize.wrapping_sub(self[0]), 0usize.wrapping_sub(self[1])]
    }

    fn add(self, rhs: Self) -> (r: Self) {
        [self[0].wrapping_add(rhs[0]), self[1].wrapping_add(rhs[1])]
    }

    fn addAssign(&mut self, rhs: Self) {
        let sum = [self[0].wrapping_add(rhs[0]), self[1].wrapping_add(rhs[1])];
        *self = sum;
    }

    fn div(self, rhs: usize) -> (r: Self) {
        [self[0] / rhs, self[1] / rhs]
    }
}

} // verus!
