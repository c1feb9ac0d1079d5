//! Small additions to the integer types, to vectors and to values that
//! are copied.

use vstd::prelude::*;

verus! {

/// The least multiple of `m` that is not below `v`.
pub open spec fn next_multiple_of(v: int, m: int) -> int {
    if v % m == 0 {
        v
    } else {
        v + (m - v % m)
    }
}

/// The next multiple is a multiple, and the nearest one above.
pub proof fn lemma_next_multiple_of(v: int, m: int)
    requires
        0 <= v,
        0 < m,
    ensures
        next_multiple_of(v, m) % m == 0,
        v <= next_multiple_of(v, m) < v + m,
{
    let r = v % m;
    let q = v / m;
    assert(v == q * m + r && 0 <= r < m) by (nonlinear_arith)
        requires
            r == v % m,
            q == v / m,
            0 < m,
    ;
    if r != 0 {
        assert((q * m + r + (m - r)) % m == 0) by (nonlinear_arith)
            requires
                0 < m,
        {
            assert(q * m + r + (m - r) == (q + 1) * m);
        }
    }
}

/// Rounding up to a multiple, and giving a number the sign of another.
pub trait UsizeExt: Sized {
    /// The value as a number.
    spec fn value(self) -> int;

    /// The least multiple of `rhs` that is not below `self`.
    fn nextMultipleOf(self, rhs: Self) -> (r: Self)
        requires
            rhs.value() > 0,
            next_multiple_of(self.value(), rhs.value()) <= usize::MAX,
        ensures
            r.value() == next_multiple_of(self.value(), rhs.value()),
    ;

    /// `self` when `rhs`, read as a signed number, is not negative, and
    /// `-self` modulo `2^BITS` when it is.
    fn mulSignumOf(self, rhs: Self) -> (r: Self)
        ensures
            r.value() == if rhs.value() <= isize::MAX || self.value() == 0 {
                self.value()
            } else {
                usize::MAX + 1 - self.value()
            },
    ;
}

impl UsizeExt for usize {
    open spec fn value(self) -> int {
        self as int
    }

    fn nextMultipleOf(self, rhs: Self) -> (r: Self) {
        let r = self % rhs;
        if r == 0 {
            self
        } else {
            self + (rhs - r)
        }
    }

    fn mulSignumOf(self, rhs: Self) -> (r: Self) {
        if rhs <= isize::MAX as usize || self == 0 {
            self
        } else {
            usize::MAX - self + 1
        }
    }
}

/// The lesser of two numbers.
pub open spec fn lesser(a: int, b: int) -> int {
    if a <= b {
        a
    } else {
        b
    }
}

/// The greater of two numbers.
pub open spec fn greater(a: int, b: int) -> int {
    if a >= b {
        a
    } else {
        b
    }
}

/// Keeping the least or the greatest of the numbers seen.
pub trait MinAssign_MaxAssign_Ext: Sized {
    /// The value as a number.
    spec fn number(self) -> int;

    /// Lowers `self` to `rhs` where `rhs` is less.
    fn minAssign(&mut self, rhs: Self)
        ensures
            final(self).number() == lesser(old(self).number(), rhs.number()),
    ;

    /// Raises `self` to `rhs` where `rhs` is greater.
    fn maxAssign(&mut self, rhs: Self)
        ensures
            final(self).number() == greater(old(self).number(), rhs.number()),
    ;
}

impl MinAssign_MaxAssign_Ext for i16 {
    open spec fn number(self) -> int {
        self as int
    }

    fn minAssign(&mut self, rhs: Self) {
        if rhs < *self {
            *self = rhs;
        }
    }

    fn maxAssign(&mut self, rhs: Self) {
        if rhs > *self {
            *self = rhs;
        }
    }
}

impl MinAssign_MaxAssign_Ext for i32 {
    open spec fn number(self) -> int {
        self as int
    }

    fn minAssign(&mut self, rhs: Self) {
        if rhs < *self {
            *self = rhs;
        }
    }

    fn maxAssign(&mut self, rhs: Self) {
        if rhs > *self {
            *self = rhs;
        }
    }
}

impl MinAssign_MaxAssign_Ext for usize {
    open spec fn number(self) -> int {
        self as int
    }

    fn minAssign(&mut self, rhs: Self) {
        if rhs < *self {
            *self = rhs;
        }
    }

    fn maxAssign(&mut self, rhs: Self) {
        if rhs > *self {
            *self = rhs;
        }
    }
}

/// Quotient and remainder at once.
pub trait DivRemExt: Sized {
    /// The value as a number.
    spec fn dividend(self) -> int;

    /// `[self / rhs, self % rhs]`.
    fn div_rem(self, rhs: Self) -> (r: [Self; 2])
        requires
            rhs.dividend() > 0,
        ensures
            r[0].dividend() == self.dividend() / rhs.dividend(),
            r[1].dividend() == self.dividend() % rhs.dividend(),
    ;
}

impl DivRemExt for usize {
    open spec fn dividend(self) -> int {
        self as int
    }

    fn div_rem(self, rhs: Self) -> (r: [Self; 2]) {
        [self / rhs, self % rhs]
    }
}

impl DivRemExt for u32 {
    open spec fn dividend(self) -> int {
        self as int
    }

    fn div_rem(self, rhs: Self) -> (r: [Self; 2]) {
        [self / rhs, self % rhs]
    }
}

/// Doing something with a value on the way.
pub trait CopyExt: Copy {
    /// Calls `f` on the value and hands the value on.
    fn also<F: FnOnce(&Self)>(self, f: F) -> (r: Self)
        requires
            f.requires((&self,)),
        ensures
            r == self,
            f.ensures((&self,), ()),
    ;
}

impl<T: Copy> CopyExt for T {
    fn also<F: FnOnce(&Self)>(self, f: F) -> (r: Self) {
        f(&self);
        self
    }
}

/// Vectors of a given length.
pub trait VecExt: Sized {
    /// What the vector holds.
    spec fn bytes(&self) -> Seq<u8>;

    /// A vector of `len` zero bytes.
    fn withLen(len: usize) -> (r: Self)
        ensures
            r.bytes() == Seq::new(len as nat, |i: int| 0u8),
    ;

    /// Cuts the vector down to `newLen` bytes.
    fn setLen(&mut self, newLen: usize)
        requires
            newLen <= old(self).bytes().len(),
        ensures
            final(self).bytes() == old(self).bytes().subrange(0, newLen as int),
    ;
}

impl VecExt for Vec<u8> {
    open spec fn bytes(&self) -> Seq<u8> {
        self@
    }

    fn withLen(len: usize) -> (r: Self) {
        let mut v: Vec<u8> = Vec::new();
        let mut i: usize = 0;
        while i < len
            invariant
                i <= len,
                v@ == Seq::new(i as nat, |k: int| 0u8),
            decreases len - i,
        {
            v.push(0u8);
            i = i + 1;
            assert(v@ =~= Seq::new(i as nat, |k: int| 0u8));
        }
        v
    }

    fn setLen(&mut self, newLen: usize) {
        self.truncate(newLen);
    }
}

/// The length of an array as a constant of its type.
pub trait LenConst_Ext {
    const LEN: usize;
}

impl<T, const N: usize> LenConst_Ext for [T; N] {
    const LEN: usize = N;
}

} // verus!
