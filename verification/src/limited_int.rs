use vstd::prelude::*;
use vstd::arithmetic::div_mod::lemma_small_mod;

verus! {

/// An integer taken modulo the constant `N`, used for tile orientations and
/// movement directions.
#[derive(Debug, PartialEq, Eq, Hash, Clone, Copy)]
pub struct LimitedInt<const N: u8>(pub u8);

/// `round(t * (n - i) / n)` for non-negative operands, rounding halves up.
pub open spec fn rounded_share(t: int, n: int, i: int) -> int {
    (2 * t * (n - i) + n) / (2 * n)
}

impl<const N: u8> LimitedInt<N> {
    /// The value reduced modulo `N`.
    pub fn new(value: u8) -> (r: Self)
        requires
            N > 0,
        ensures
            r.0 == value % N,
    {
        Self(value % N)
    }

    /// Every value `0, 1, ..., N - 1`, in increasing order.
    pub fn all_values() -> (r: Vec<Self>)
        requires
            N > 0,
        ensures
            r@.len() == N,
            forall|i: int| 0 <= i < N ==> (#[trigger] r@[i]).0 == i,
    {
        let mut output: Vec<Self> = Vec::new();
        let mut i: u8 = 0;
        while i < N
            invariant
                N > 0,
                i <= N,
                output@.len() == i,
                forall|k: int| 0 <= k < i ==> (#[trigger] output@[k]).0 == k,
            decreases N - i,
        {
            let v = Self::new(i);
            proof {
                lemma_small_mod(i as nat, N as nat);
            }
            output.push(v);
            assert(output@[i as int].0 == i);
            i = i + 1;
        }
        output
    }

    /// The previous and the next value, wrapping around at `N`.
    pub fn adjacent_values(&self) -> (r: [LimitedInt<N>; 2])
        requires
            N > 0,
            self.0 + N - 1 <= u8::MAX,
            self.0 + 1 <= u8::MAX,
        ensures
            r[0].0 == (self.0 + N - 1) % (N as int),
            r[1].0 == (self.0 + 1) % (N as int),
    {
        let value = self.0;
        let prev = Self::new(value + (N - 1));
        let next = Self::new(value + 1);
        [prev, next]
    }

    /// For each value `i` of this type, the value of `LimitedInt<T>` that lies
    /// at the same fraction of the way round, measured the other way:
    /// entry `i` is `round(T * (1 - i / N)) mod T`.
    pub fn map_to_other<const T: u8>() -> (r: Vec<LimitedInt<T>>)
        requires
            N > 0,
            T > 0,
        ensures
            r@.len() == N,
            forall|i: int|
                0 <= i < N ==> (#[trigger] r@[i]).0 == rounded_share(T as int, N as int, i) % (T as int),
    {
        let mut output: Vec<LimitedInt<T>> = Vec::new();
        let mut i: u8 = 0;
        while i < N
            invariant
                N > 0,
                T > 0,
                i <= N,
                output@.len() == i,
                forall|k: int|
                    0 <= k < i ==> (#[trigger] output@[k]).0 == rounded_share(T as int, N as int, k)
                        % (T as int),
            decreases N - i,
        {
            let t: u32 = T as u32;
            let n: u32 = N as u32;
            let k: u32 = i as u32;
            assert(2 * t * (n - k) + n <= 2 * 255 * 255 + 255) by (nonlinear_arith)
                requires
                    t <= 255,
                    n <= 255,
                    k <= n,
            ;
            let share: u32 = (2 * t * (n - k) + n) / (2 * n);
            let reduced: u32 = share % t;
            assert(share == rounded_share(T as int, N as int, i as int));
            assert(reduced < t) by (nonlinear_arith)
                requires
                    t > 0,
                    reduced == share % t,
            ;
            let v = LimitedInt::<T>::new(reduced as u8);
            proof {
                lemma_small_mod(reduced as nat, T as nat);
            }
            assert(v.0 == rounded_share(T as int, N as int, i as int) % (T as int));
            output.push(v);
            assert(output@[i as int] == v);
            i = i + 1;
        }
        output
    }

    /// The value advanced by `shift`, wrapping around at `N`.
    pub fn shift_by(&self, shift: u8) -> (r: Self)
        requires
            N > 0,
            self.0 + shift <= u8::MAX,
        ensures
            r.0 == (self.0 + shift) % (N as int),
    {
        Self::new(self.0 + shift)
    }
}

} // verus!
