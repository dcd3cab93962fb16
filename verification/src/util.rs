//! Small numeric helpers shared by the demonstration programs.

use vstd::prelude::*;

verus! {

use vstd::arithmetic::power2::pow2;

/// Increments every element of a boxed vector by one.
pub fn update_vector(myvec: &mut Box<Vec<usize>>)
    requires
        forall|i: int| 0 <= i < old(myvec)@.len() ==> old(myvec)@[i] < usize::MAX,
    ensures
        final(myvec)@.len() == old(myvec)@.len(),
        forall|i: int| 0 <= i < old(myvec)@.len() ==> final(myvec)@[i] == old(myvec)@[i] + 1,
{
    let n = myvec.len();
    let mut i: usize = 0;
    while i < n
        invariant
            i <= n,
            n == myvec@.len(),
            n == old(myvec)@.len(),
            forall|j: int| 0 <= j < old(myvec)@.len() ==> old(myvec)@[j] < usize::MAX,
            forall|j: int| i <= j < n ==> myvec@[j] == old(myvec)@[j],
            forall|j: int| 0 <= j < i ==> myvec@[j] == old(myvec)@[j] + 1,
        decreases n - i,
    {
        let x = myvec[i];
        myvec.set(i, x + 1);
        i = i + 1;
    }
}

/// How many trailing zero bits a positive number carries.
pub open spec fn trailing_zeros(n: int) -> int
    decreases n,
{
    if n <= 0 {
        0
    } else if n % 2 == 1 {
        0
    } else {
        1 + trailing_zeros(n / 2)
    }
}

/// Counts the trailing zero bits of `n`, or reports the full width for 0.
pub fn get_trailing_zeros(n: u32, num_bits: u8) -> (j: u8)
    ensures
        n == 0 ==> j == num_bits,
        n > 0 ==> j == trailing_zeros(n as int),
{
    let ghost n0 = n;
    let mut n = n;
    let mut j: u8 = 0;
    if n == 0 {
        j = num_bits;
    } else {
        proof {
            vstd::arithmetic::power2::lemma2_to64();
        }
        while n > 0
            invariant
                n >= 1,
                n as int * pow2(j as nat) == n0 as int,
                trailing_zeros(n0 as int) == j + trailing_zeros(n as int),
                pow2(0) == 1,
            ensures
                trailing_zeros(n0 as int) == j,
            decreases n,
        {
            if (n & 1) == 1 {
                proof {
                    assert((n & 1) == n % 2) by (bit_vector);
                    assert(trailing_zeros(n as int) == 0);
                }
                break ;
            }
            proof {
                assert((n & 1) == n % 2) by (bit_vector);
                assert((n >> 1u32) == n / 2) by (bit_vector);
                vstd::arithmetic::power2::lemma_pow2_unfold((j + 1) as nat);
                assert((n / 2) as int * pow2((j + 1) as nat) == n as int * pow2(j as nat))
                    by (nonlinear_arith)
                    requires
                        n % 2 == 0,
                        n >= 1,
                        pow2((j + 1) as nat) == 2 * pow2(j as nat),
                ;
                assert(j < 32) by {
                    vstd::arithmetic::power2::lemma2_to64();
                    if j >= 32 {
                        vstd::arithmetic::power2::lemma_pow2_strictly_increases(
                            32,
                            (j + 1) as nat,
                        );
                        assert(pow2(j as nat) >= pow2(32)) by {
                            if j > 32 {
                                vstd::arithmetic::power2::lemma_pow2_strictly_increases(
                                    32,
                                    j as nat,
                                );
                            }
                        }
                        assert((n as int) * pow2(j as nat) >= pow2(32)) by (nonlinear_arith)
                            requires
                                n >= 1,
                                pow2(j as nat) >= pow2(32),
                        ;
                    }
                }
            }
            n = n >> 1;
            j = j + 1;
        }
    }
    j
}

} // verus!
