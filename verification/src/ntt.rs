//! Number-theoretic transform entry points over the prime field: the
//! forward transform as a direct evaluation of the defining sums, and the
//! inverse transform as scaling, cyclic reversal and a forward transform.

use vstd::prelude::*;

use crate::field::{pow_mod, Field, GENERATOR, MODULUS};
use vstd::arithmetic::div_mod::lemma_add_mod_noop;

verus! {

/// Every element is a reduced field element.
pub open spec fn all_wf(s: Seq<Field>) -> bool {
    forall|i: int| 0 <= i < s.len() ==> (#[trigger] s[i]).wf()
}

/// The root of unity used for a transform of length `n`:
/// `GENERATOR^((MODULUS - 1) / n)`.
pub open spec fn omega(n: int) -> int {
    pow_mod(GENERATOR as int, (((MODULUS - 1) as int) / n) as nat)
}

/// Partial transform sum: `sum_{t < j} s[t] * wi^t`, reduced after every
/// step, where `wi` is the power of the root belonging to one output row.
pub open spec fn dft_sum(s: Seq<Field>, wi: int, j: nat) -> int
    decreases j,
{
    if j == 0 {
        0
    } else {
        (dft_sum(s, wi, (j - 1) as nat) + s[j - 1].value * pow_mod(wi, (j - 1) as nat)) % (
        MODULUS as int)
    }
}

/// Output row `i` of the transform of `s`: the full sum against the powers
/// of `omega^i`.
pub open spec fn ntt_point(s: Seq<Field>, i: int) -> int {
    dft_sum(s, pow_mod(omega(s.len() as int), i as nat), s.len() as nat)
}

/// `s` with every element multiplied by the inverse of its length.
pub open spec fn inv_scaled(s: Seq<Field>) -> Seq<Field> {
    let c: int = pow_mod(((s.len() as u64) % MODULUS) as int, (MODULUS - 2) as nat);
    Seq::new(s.len(), |j: int| (Field { value: ((s[j].value * c) % (MODULUS as int)) as u64 }))
}

/// `s` with the elements after the first reversed: index `j` maps to
/// `len - j` for `j >= 1`.
pub open spec fn cyclic_reversed(s: Seq<Field>) -> Seq<Field> {
    Seq::new(s.len(), |j: int| if j == 0 { s[0] } else { s[s.len() - j] })
}

/// Forward number-theoretic transform, in place: output row `i` is the sum
/// of the inputs against the powers of `omega^i`. The length must divide
/// the group order `MODULUS - 1`.
pub fn ntt(values: &mut Vec<Field>)
    requires
        all_wf(old(values)@),
        old(values).len() == 0 || ((MODULUS - 1) as int) % (old(values).len() as int) == 0,
    ensures
        final(values).len() == old(values).len(),
        all_wf(final(values)@),
        forall|i: int|
            0 <= i < old(values).len() ==> (#[trigger] final(values)[i]).value == ntt_point(
                old(values)@,
                i,
            ),
{
    let n: usize = values.len();
    if n == 0 {
        return ;
    }
    let ghost s0 = values@;
    let w: Field = Field { value: GENERATOR }.pow((MODULUS - 1) / (n as u64));
    proof {
        assert(w.value == omega(n as int));
    }
    let mut tmp: Vec<Field> = Vec::new();
    let mut k: usize = 0;
    while k < n
        invariant
            values@ == s0,
            n == s0.len(),
            0 <= k <= n,
            tmp.len() == k,
            forall|q: int| 0 <= q < k ==> tmp[q] == s0[q],
        decreases n - k,
    {
        let x: Field = values[k];
        tmp.push(x);
        k = k + 1;
    }
    proof {
        assert(tmp@ =~= s0);
    }
    let mut i: usize = 0;
    let mut wrow: Field = Field { value: 1 };
    while i < n
        invariant
            n == s0.len(),
            values.len() == n,
            tmp@ == s0,
            all_wf(s0),
            w.wf(),
            wrow.wf(),
            w.value == omega(n as int),
            0 <= i <= n,
            wrow.value == pow_mod(w.value as int, i as nat),
            forall|q: int|
                0 <= q < i ==> (#[trigger] values[q]).wf() && values[q].value == dft_sum(
                    s0,
                    pow_mod(omega(n as int), q as nat),
                    n as nat,
                ),
        decreases n - i,
    {
        let mut acc: Field = Field { value: 0 };
        let mut wp: Field = Field { value: 1 };
        let mut t: usize = 0;
        while t < n
            invariant
                n == s0.len(),
                tmp@ == s0,
                tmp.len() == n,
                all_wf(s0),
                wrow.wf(),
                acc.wf(),
                wp.wf(),
                0 <= t <= n,
                wp.value == pow_mod(wrow.value as int, t as nat),
                acc.value == dft_sum(s0, wrow.value as int, t as nat),
            decreases n - t,
        {
            let x: Field = tmp[t];
            let term: Field = x.mul(wp);
            let ghost acc0: int = acc.value as int;
            acc = acc.add(term);
            proof {
                lemma_add_mod_noop(acc0, s0[t as int].value * pow_mod(wrow.value as int, t as nat),
                    MODULUS as int);
            }
            wp = wp.mul(wrow);
            t = t + 1;
        }
        values[i] = acc;
        wrow = wrow.mul(w);
        i = i + 1;
    }
}

/// Inverse number-theoretic transform, in place: scale by the inverse of
/// the length, reverse the elements after the first, and apply the forward
/// transform. Buffers of at most one element are returned unchanged.
pub fn intt(values: &mut Vec<Field>)
    requires
        all_wf(old(values)@),
        old(values).len() <= 1 || ((MODULUS - 1) as int) % (old(values).len() as int) == 0,
    ensures
        final(values).len() == old(values).len(),
        all_wf(final(values)@),
        old(values).len() <= 1 ==> final(values)@ == old(values)@,
        old(values).len() > 1 ==> forall|i: int|
            0 <= i < old(values).len() ==> (#[trigger] final(values)[i]).value == ntt_point(
                cyclic_reversed(inv_scaled(old(values)@)),
                i,
            ),
{
    let n: usize = values.len();
    if n <= 1 {
        return ;
    }
    let ghost s0 = values@;
    let scale: Field = Field::from_u64(n as u64).inv();
    let mut j: usize = 0;
    while j < n
        invariant
            values.len() == n,
            n == s0.len(),
            all_wf(s0),
            scale.wf(),
            scale.value == pow_mod(((n as u64) % MODULUS) as int, (MODULUS - 2) as nat),
            0 <= j <= n,
            forall|q: int| 0 <= q < j ==> (#[trigger] values[q]) == inv_scaled(s0)[q],
            forall|q: int| j <= q < n ==> (#[trigger] values[q]) == s0[q],
        decreases n - j,
    {
        let x: Field = values[j];
        let y: Field = x.mul(scale);
        values[j] = y;
        j = j + 1;
    }
    proof {
        assert(values@ =~= inv_scaled(s0));
        assert(all_wf(inv_scaled(s0)));
    }
    let ghost mid = values@;
    let mut x: usize = 1;
    let mut y: usize = n - 1;
    while x < y
        invariant
            values.len() == n,
            n == mid.len(),
            1 <= x,
            y <= n - 1,
            x + y == n,
            values[0] == mid[0],
            forall|q: int| x <= q <= y ==> (#[trigger] values[q]) == mid[q],
            forall|q: int| 1 <= q < x ==> (#[trigger] values[q]) == mid[n - q],
            forall|q: int| y < q < n ==> (#[trigger] values[q]) == mid[n - q],
        decreases y - x + 1,
    {
        let t1: Field = values[x];
        let t2: Field = values[y];
        values[x] = t2;
        values[y] = t1;
        x = x + 1;
        y = y - 1;
    }
    proof {
        assert(values@ =~= cyclic_reversed(mid));
        assert(all_wf(values@));
    }
    ntt(values);
}

} // verus!
