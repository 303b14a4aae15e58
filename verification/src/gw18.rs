//! In-place transposition of rectangular row-major matrices by the recursive
//! Gustavson-Walker scheme: square blocks composed with in-place exchange,
//! shuffle and unshuffle permutations on ranges of one buffer.

use vstd::prelude::*;

use crate::perm::{
    lemma_shuffle_identity, lemma_shuffle_step, lemma_transpose_at, lemma_transpose_split,
    lemma_transpose_stack, lemma_unshuffle_step, seg, shuffle_spec, transpose_spec,
    unshuffle_spec,
};
use vstd::arithmetic::div_mod::{
    lemma_fundamental_div_mod, lemma_fundamental_div_mod_converse,
    lemma_mod_division_less_than_divisor,
};

verus! {

/// Decompose a position in an `n x n` block into its row `p / n` and
/// column `p % n`.
proof fn lemma_rc(p: int, n: int)
    requires
        n >= 1,
        0 <= p < n * n,
    ensures
        0 <= p / n < n,
        0 <= p % n < n,
        p == (p / n) * n + p % n,
{
    crate::perm::lemma_div_below(p, n, n);
    lemma_mod_division_less_than_divisor(p, n);
    lemma_fundamental_div_mod(p, n);
    assert(p == (p / n) * n + p % n) by (nonlinear_arith)
        requires
            p == n * (p / n) + p % n,
    ;
}

/// `n` is a power of two.
pub open spec fn is_pow2(n: int) -> bool
    decreases n,
{
    if n <= 0 {
        false
    } else if n == 1 {
        true
    } else {
        n % 2 == 0 && is_pow2(n / 2)
    }
}

/// The largest power of two strictly below `m`, and `0` for `m <= 1`, where
/// no such power exists. Computed with integer arithmetic only, so the
/// result is the same on every platform.
pub fn largest_power_of_two(m: usize) -> (r: usize)
    ensures
        m <= 1 ==> r == 0,
        m >= 2 ==> is_pow2(r as int) && r < m && m <= 2 * r,
{
    if m <= 1 {
        return 0;
    }
    let mut p: usize = 1;
    while p <= (m - 1) / 2
        invariant
            2 <= m,
            1 <= p < m,
            is_pow2(p as int),
        decreases m - p,
    {
        p = p * 2;
    }
    p
}

/// Swap `v[x .. x + len]` with the disjoint, equally long `v[y .. y + len]`.
fn swap_ranges<T: Copy>(v: &mut Vec<T>, x: usize, y: usize, len: usize)
    requires
        x + len <= y,
        y + len <= old(v).len(),
    ensures
        final(v).len() == old(v).len(),
        forall|i: int|
            0 <= i < old(v).len() && !(x <= i < x + len) && !(y <= i < y + len) ==> final(v)[i]
                == old(v)[i],
        forall|i: int| x <= i < x + len ==> final(v)[i] == old(v)[i + (y - x)],
        forall|i: int| y <= i < y + len ==> final(v)[i] == old(v)[i - (y - x)],
{
    let mut k: usize = 0;
    while k < len
        invariant
            x + len <= y,
            y + len <= v.len(),
            v.len() == old(v).len(),
            0 <= k <= len,
            forall|i: int|
                0 <= i < old(v).len() && !(x <= i < x + k) && !(y <= i < y + k) ==> v[i] == old(
                    v,
                )[i],
            forall|i: int| x <= i < x + k ==> v[i] == old(v)[i + (y - x)],
            forall|i: int| y <= i < y + k ==> v[i] == old(v)[i - (y - x)],
        decreases len - k,
    {
        let tmp: T = v[x + k];
        let other: T = v[y + k];
        v[x + k] = other;
        v[y + k] = tmp;
        k = k + 1;
    }
}

/// Rotate `v[lo .. lo + a + b]` in place from the layout `A || B`, with
/// `|A| == a` and `|B| == b`, to `B || A`, by pairwise swaps of equal-length
/// sub-ranges. The rest of the buffer is untouched.
pub fn exchange<T: Copy>(v: &mut Vec<T>, lo: usize, a: usize, b: usize)
    requires
        lo + a + b <= old(v).len(),
    ensures
        final(v).len() == old(v).len(),
        forall|i: int|
            0 <= i < old(v).len() && !(lo <= i < lo + a + b) ==> final(v)[i] == old(v)[i],
        forall|i: int| lo <= i < lo + b ==> final(v)[i] == old(v)[i + a],
        forall|i: int| lo + b <= i < lo + a + b ==> final(v)[i] == old(v)[i - b],
    decreases a + b,
{
    if a == 0 || b == 0 {
        return ;
    }
    if a == b {
        swap_ranges(v, lo, lo + a, a);
    } else if a > b {
        swap_ranges(v, lo, lo + a, b);
        let ghost v1 = v@;
        exchange(v, lo + b, a - b, b);
        proof {
            assert forall|i: int| lo <= i < lo + b implies v@[i] == old(v)@[i + a] by {
                assert(v@[i] == v1[i]);
                assert(v1[i] == old(v)@[i + a]);
            }
            assert forall|i: int| lo + b <= i < lo + a + b implies v@[i] == old(v)@[i - b] by {
                if i < lo + 2 * b {
                    assert(v@[i] == v1[i + (a - b)]);
                    assert(v1[i + (a - b)] == old(v)@[i - b]);
                } else {
                    assert(v@[i] == v1[i - b]);
                    assert(v1[i - b] == old(v)@[i - b]);
                }
            }
        }
    } else {
        swap_ranges(v, lo, lo + b, a);
        let ghost v1 = v@;
        exchange(v, lo, a, b - a);
        proof {
            assert forall|i: int| lo <= i < lo + b implies v@[i] == old(v)@[i + a] by {
                if i < lo + (b - a) {
                    assert(v@[i] == v1[i + a]);
                    assert(v1[i + a] == old(v)@[i + a]);
                } else {
                    assert(v@[i] == v1[i - (b - a)]);
                    assert(v1[i - (b - a)] == old(v)@[i + a]);
                }
            }
            assert forall|i: int| lo + b <= i < lo + a + b implies v@[i] == old(v)@[i - b] by {
                assert(v@[i] == v1[i]);
                assert(v1[i] == old(v)@[i - b]);
            }
        }
    }
}

/// In-place interleave of `v[lo .. lo + (a + b) * m]`: a run of `m`
/// a-blocks followed by a run of `m` b-blocks becomes `m` groups of one
/// a-block and one b-block each, as `shuffle_spec` describes. The rest of
/// the buffer is untouched.
pub fn shuffle<T: Copy>(v: &mut Vec<T>, lo: usize, a: usize, b: usize, m: usize)
    requires
        lo + (a + b) * m <= old(v).len(),
    ensures
        final(v).len() == old(v).len(),
        forall|i: int|
            0 <= i < old(v).len() && !(lo <= i < lo + (a + b) * m) ==> final(v)[i] == old(v)[i],
        seg(final(v)@, lo as int, (a + b) * m) == shuffle_spec(
            seg(old(v)@, lo as int, (a + b) * m),
            a as int,
            b as int,
            m as int,
        ),
    decreases m,
{
    let _total: usize = v.len();
    proof {
        assert(0 <= (a + b) * m) by (nonlinear_arith);
    }
    if m <= 1 {
        proof {
            lemma_shuffle_identity::<T>(
                seg(old(v)@, lo as int, (a + b) * m),
                a as int,
                b as int,
                m as int,
            );
        }
        return ;
    }
    let ml: usize = largest_power_of_two(m);
    let mr: usize = m - ml;
    let ghost w: int = a + b;
    let ghost n: int = (a + b) * m;
    proof {
        assert(a * ml + a * mr == a * m && b * ml + b * mr == b * m && w * ml + w * mr == w * m
            && w * ml == a * ml + b * ml && w * mr == a * mr + b * mr && a * m + b * m == w * m
            && 0 <= a * ml && 0 <= a * mr && 0 <= b * ml && 0 <= b * mr && a * ml <= w * ml && w
            * ml <= w * m && a * m <= w * m && w <= w * m) by (nonlinear_arith)
            requires
                w == a + b,
                m == ml + mr,
                a >= 0,
                b >= 0,
                ml >= 1,
                mr >= 1,
        ;
    }
    let ghost s0 = seg(v@, lo as int, n);
    if a * mr > 0 && b * ml > 0 {
        exchange(v, lo + a * ml, a * mr, b * ml);
    }
    let ghost e = seg(v@, lo as int, n);
    proof {
        if a * mr > 0 && b * ml > 0 {
            assert forall|i: int| 0 <= i < a * ml implies e[i] == s0[i] by {}
            assert forall|i: int| a * ml <= i < w * ml implies e[i] == s0[i + a * m - a * ml] by {
                assert(v@[lo + i] == old(v)@[lo + i + a * mr]);
            }
            assert forall|i: int| w * ml <= i < w * ml + a * mr implies e[i] == s0[i - b * ml] by {
                assert(v@[lo + i] == old(v)@[lo + i - b * ml]);
            }
            assert forall|i: int| a * m + b * ml <= i < w * m implies e[i] == s0[i] by {}
        } else {
            assert(a == 0 || b == 0) by (nonlinear_arith)
                requires
                    a * mr == 0 || b * ml == 0,
                    ml >= 1,
                    mr >= 1,
                    a >= 0,
                    b >= 0,
            ;
            assert(e =~= s0);
        }
        lemma_shuffle_step(s0, e, a as int, b as int, m as int, ml as int);
    }
    let ghost v1 = v@;
    shuffle(v, lo, a, b, ml);
    let ghost v2 = v@;
    shuffle(v, lo + (a + b) * ml, a, b, mr);
    proof {
        let lv = shuffle_spec(seg(v1, lo as int, w * ml), a as int, b as int, ml as int);
        let rv = shuffle_spec(
            seg(v2, lo + w * ml, w * mr),
            a as int,
            b as int,
            mr as int,
        );
        assert(seg(v2, lo as int, w * ml) == lv);
        assert(seg(v@, lo + w * ml, w * mr) == rv);
        // the right half was untouched by the left recursion, and the left
        // half by the right recursion
        assert(seg(v2, lo + w * ml, w * mr) =~= seg(v1, lo + w * ml, w * mr));
        assert(seg(v@, lo as int, w * ml) =~= seg(v2, lo as int, w * ml));
        // assemble the two halves
        assert(seg(e, 0, w * ml) =~= seg(v1, lo as int, w * ml));
        assert(seg(e, w * ml, w * mr) =~= seg(v1, lo + w * ml, w * mr));
        assert(seg(v@, lo as int, n) =~= lv + rv);
        assert(seg(v@, lo as int, n) == shuffle_spec(s0, a as int, b as int, m as int));
    }
}

/// In-place de-interleave of `v[lo .. lo + (a + b) * m]`: the exact inverse
/// of `shuffle`, as `unshuffle_spec` describes. The rest of the buffer is
/// untouched.
pub fn unshuffle<T: Copy>(v: &mut Vec<T>, lo: usize, a: usize, b: usize, m: usize)
    requires
        lo + (a + b) * m <= old(v).len(),
    ensures
        final(v).len() == old(v).len(),
        forall|i: int|
            0 <= i < old(v).len() && !(lo <= i < lo + (a + b) * m) ==> final(v)[i] == old(v)[i],
        seg(final(v)@, lo as int, (a + b) * m) == unshuffle_spec(
            seg(old(v)@, lo as int, (a + b) * m),
            a as int,
            b as int,
            m as int,
        ),
    decreases m,
{
    let _total: usize = v.len();
    proof {
        assert(0 <= (a + b) * m) by (nonlinear_arith);
    }
    if m <= 1 {
        proof {
            lemma_shuffle_identity::<T>(
                seg(old(v)@, lo as int, (a + b) * m),
                a as int,
                b as int,
                m as int,
            );
        }
        return ;
    }
    let ml: usize = largest_power_of_two(m);
    let mr: usize = m - ml;
    let ghost w: int = a + b;
    let ghost n: int = (a + b) * m;
    proof {
        assert(a * ml + a * mr == a * m && b * ml + b * mr == b * m && w * ml + w * mr == w * m
            && w * ml == a * ml + b * ml && w * mr == a * mr + b * mr && a * m + b * m == w * m
            && 0 <= a * ml && 0 <= a * mr && 0 <= b * ml && 0 <= b * mr && a * ml <= w * ml && w
            * ml <= w * m && a * m <= w * m && w <= w * m) by (nonlinear_arith)
            requires
                w == a + b,
                m == ml + mr,
                a >= 0,
                b >= 0,
                ml >= 1,
                mr >= 1,
        ;
    }
    let ghost s0 = seg(v@, lo as int, n);
    unshuffle(v, lo, a, b, ml);
    let ghost v1 = v@;
    unshuffle(v, lo + (a + b) * ml, a, b, mr);
    let ghost v2 = v@;
    let ghost c = seg(v2, lo as int, n);
    proof {
        let lv = unshuffle_spec(seg(s0, 0, w * ml), a as int, b as int, ml as int);
        let rv = unshuffle_spec(seg(s0, w * ml, w * mr), a as int, b as int, mr as int);
        assert(seg(s0, 0, w * ml) =~= seg(old(v)@, lo as int, w * ml));
        assert(seg(s0, w * ml, w * mr) =~= seg(old(v)@, lo + w * ml, w * mr));
        assert(seg(v1, lo as int, w * ml) == unshuffle_spec(
            seg(old(v)@, lo as int, w * ml),
            a as int,
            b as int,
            ml as int,
        ));
        assert(seg(v2, lo + w * ml, w * mr) == unshuffle_spec(
            seg(v1, lo + w * ml, w * mr),
            a as int,
            b as int,
            mr as int,
        ));
        assert(seg(v1, lo + w * ml, w * mr) =~= seg(old(v)@, lo + w * ml, w * mr));
        assert(seg(v2, lo as int, w * ml) =~= seg(v1, lo as int, w * ml));
        assert(c =~= lv + rv);
    }
    if a * mr > 0 && b * ml > 0 {
        exchange(v, lo + a * ml, b * ml, a * mr);
    }
    let ghost f = seg(v@, lo as int, n);
    proof {
        if a * mr > 0 && b * ml > 0 {
            assert forall|i: int| 0 <= i < a * ml implies f[i] == c[i] by {}
            assert forall|i: int| a * ml <= i < a * m implies f[i] == c[i + b * ml] by {
                assert(v@[lo + i] == v2[lo + i + b * ml]);
            }
            assert forall|i: int| a * m <= i < a * m + b * ml implies f[i] == c[i - a * (m - ml)]
                by {
                assert(v@[lo + i] == v2[lo + i - a * mr]);
            }
            assert forall|i: int| a * m + b * ml <= i < w * m implies f[i] == c[i] by {}
        } else {
            assert(a == 0 || b == 0) by (nonlinear_arith)
                requires
                    a * mr == 0 || b * ml == 0,
                    ml >= 1,
                    mr >= 1,
                    a >= 0,
                    b >= 0,
            ;
            assert(f =~= c);
        }
        lemma_unshuffle_step(s0, c, f, a as int, b as int, m as int, ml as int);
    }
}

/// The mirrored pair of `(r, c)` has already been swapped when the row
/// sweep of the square transpose stands at `(i, j)`.
spec fn sq_done(r: int, c: int, i: int, j: int) -> bool {
    (r < c && (r < i || (r == i && c < j))) || (c < r && (c < i || (c == i && r < j)))
}

/// The `n x n` block `s` with exactly the pairs before sweep position
/// `(i, j)` swapped.
spec fn sq_partial<T>(s: Seq<T>, n: int, i: int, j: int) -> Seq<T> {
    Seq::new(
        s.len(),
        |p: int|
            {
                let r: int = p / n;
                let c: int = p % n;
                if sq_done(r, c, i, j) {
                    s[c * n + r]
                } else {
                    s[p]
                }
            },
    )
}

/// Transpose the `n x n` row-major block `v[lo .. lo + n * n]` in place by
/// swapping each entry above the diagonal with its mirror image. The rest
/// of the buffer is untouched.
pub fn square_transpose<T: Copy>(v: &mut Vec<T>, lo: usize, n: usize)
    requires
        lo + n * n <= old(v).len(),
    ensures
        final(v).len() == old(v).len(),
        forall|i: int| 0 <= i < old(v).len() && !(lo <= i < lo + n * n) ==> final(v)[i] == old(v)[i],
        seg(final(v)@, lo as int, n * n) == transpose_spec(
            seg(old(v)@, lo as int, n * n),
            n as int,
            n as int,
        ),
    decreases n,
{
    let _total: usize = v.len();
    proof {
        assert(0 <= n * n) by (nonlinear_arith);
    }
    let ghost s0 = seg(v@, lo as int, n * n);
    if n == 0 {
        proof {
            assert(seg(v@, lo as int, n * n) =~= transpose_spec(s0, n as int, n as int));
        }
        return ;
    }
    proof {
        assert forall|p: int| 0 <= p < n * n implies sq_partial(s0, n as int, 0, 1)[p] == s0[p] by {
            lemma_rc(p, n as int);
        }
        assert(seg(v@, lo as int, n * n) =~= sq_partial(s0, n as int, 0, 1));
    }
    let mut i: usize = 0;
    while i < n
        invariant
            n >= 1,
            lo + n * n <= v.len(),
            v.len() == old(v).len(),
            0 <= i <= n,
            s0 == seg(old(v)@, lo as int, n * n),
            forall|q: int|
                0 <= q < old(v).len() && !(lo <= q < lo + n * n) ==> v[q] == old(v)[q],
            seg(v@, lo as int, n * n) == sq_partial(s0, n as int, i as int, i + 1),
        decreases n - i,
    {
        let mut j: usize = i + 1;
        while j < n
            invariant
                n >= 1,
                lo + n * n <= v.len(),
                v.len() == old(v).len(),
                0 <= i < n,
                i + 1 <= j <= n,
                s0 == seg(old(v)@, lo as int, n * n),
                forall|q: int|
                    0 <= q < old(v).len() && !(lo <= q < lo + n * n) ==> v[q] == old(v)[q],
                seg(v@, lo as int, n * n) == sq_partial(s0, n as int, i as int, j as int),
            decreases n - j,
        {
            proof {
                assert(i * n + j < n * n && j * n + i < n * n && 0 <= i * n + j && 0 <= j * n + i)
                    by (nonlinear_arith)
                    requires
                        0 <= i < n,
                        0 <= j < n,
                ;
            }
            let pij: usize = lo + i * n + j;
            let pji: usize = lo + j * n + i;
            let ghost before = seg(v@, lo as int, n * n);
            let tmp: T = v[pij];
            let other: T = v[pji];
            v[pij] = other;
            v[pji] = tmp;
            proof {
                let ni: int = n as int;
                let ii: int = i as int;
                let jj: int = j as int;
                assert forall|p: int|
                    #![trigger sq_partial(s0, ni, ii, jj + 1)[p]]
                    0 <= p < ni * ni implies seg(v@, lo as int, n * n)[p] == sq_partial(
                    s0,
                    ni,
                    ii,
                    jj + 1,
                )[p] by {
                    lemma_rc(p, ni);
                    let r: int = p / ni;
                    let c: int = p % ni;
                    if p == ii * ni + jj {
                        lemma_fundamental_div_mod_converse(p, ni, ii, jj);
                        lemma_rc(jj * ni + ii, ni);
                        lemma_fundamental_div_mod_converse(jj * ni + ii, ni, jj, ii);
                        assert(before[jj * ni + ii] == sq_partial(s0, ni, ii, jj)[jj * ni + ii]);
                    } else if p == jj * ni + ii {
                        lemma_fundamental_div_mod_converse(p, ni, jj, ii);
                        lemma_rc(ii * ni + jj, ni);
                        lemma_fundamental_div_mod_converse(ii * ni + jj, ni, ii, jj);
                        assert(before[ii * ni + jj] == sq_partial(s0, ni, ii, jj)[ii * ni + jj]);
                    } else {
                        assert(!(r == ii && c == jj) && !(r == jj && c == ii));
                        assert(seg(v@, lo as int, n * n)[p] == before[p]);
                        assert(before[p] == sq_partial(s0, ni, ii, jj)[p]);
                        assert(sq_done(r, c, ii, jj) == sq_done(r, c, ii, jj + 1));
                    }
                }
                assert(seg(v@, lo as int, n * n) =~= sq_partial(s0, ni, ii, jj + 1));
            }
            j = j + 1;
        }
        proof {
            let ni: int = n as int;
            let ii: int = i as int;
            assert forall|p: int| 0 <= p < ni * ni implies sq_partial(s0, ni, ii, ni)[p]
                == sq_partial(s0, ni, ii + 1, ii + 2)[p] by {
                lemma_rc(p, ni);
            }
            assert(sq_partial(s0, ni, ii, ni) =~= sq_partial(s0, ni, ii + 1, ii + 2));
        }
        i = i + 1;
    }
    proof {
        let ni: int = n as int;
        assert forall|p: int| 0 <= p < ni * ni implies sq_partial(s0, ni, ni, ni + 1)[p]
            == transpose_spec(s0, ni, ni)[p] by {
            lemma_rc(p, ni);
        }
        assert(sq_partial(s0, ni, ni, ni + 1) =~= transpose_spec(s0, ni, ni));
    }
}

/// Transpose the `rows x cols` row-major block `v[lo .. lo + rows * cols]`
/// through an auxiliary buffer: read the matrix column by column into a
/// scratch vector, then copy it back. The rest of the buffer is untouched.
pub fn copy_transpose<T: Copy>(v: &mut Vec<T>, lo: usize, rows: usize, cols: usize)
    requires
        lo + rows * cols <= old(v).len(),
    ensures
        final(v).len() == old(v).len(),
        forall|i: int|
            0 <= i < old(v).len() && !(lo <= i < lo + rows * cols) ==> final(v)[i] == old(v)[i],
        seg(final(v)@, lo as int, rows * cols) == transpose_spec(
            seg(old(v)@, lo as int, rows * cols),
            rows as int,
            cols as int,
        ),
{
    let _total: usize = v.len();
    proof {
        assert(0 <= rows * cols && rows * cols == cols * rows) by (nonlinear_arith);
    }
    let ghost s0 = seg(v@, lo as int, rows * cols);
    let ghost tsp = transpose_spec(s0, rows as int, cols as int);
    let n: usize = rows * cols;
    let mut tmp: Vec<T> = Vec::new();
    let mut j: usize = 0;
    while j < cols
        invariant
            lo + rows * cols <= v.len(),
            v@ == old(v)@,
            n == rows * cols,
            0 <= j <= cols,
            s0 == seg(old(v)@, lo as int, rows * cols),
            tsp == transpose_spec(s0, rows as int, cols as int),
            tmp.len() == j * rows,
            forall|q: int| 0 <= q < tmp.len() ==> tmp[q] == tsp[q],
        decreases cols - j,
    {
        let mut i: usize = 0;
        while i < rows
            invariant
                lo + rows * cols <= v.len(),
                v@ == old(v)@,
                n == rows * cols,
                0 <= j < cols,
                0 <= i <= rows,
                s0 == seg(old(v)@, lo as int, rows * cols),
                tsp == transpose_spec(s0, rows as int, cols as int),
                tmp.len() == j * rows + i,
                forall|q: int| 0 <= q < tmp.len() ==> tmp[q] == tsp[q],
            decreases rows - i,
        {
            proof {
                assert(i * cols + j < rows * cols && 0 <= i * cols + j && j * rows + i < rows
                    * cols) by (nonlinear_arith)
                    requires
                        0 <= i < rows,
                        0 <= j < cols,
                ;
                lemma_transpose_at(s0, rows as int, cols as int, i as int, j as int);
            }
            let x: T = v[lo + i * cols + j];
            tmp.push(x);
            i = i + 1;
        }
        proof {
            assert(j * rows + rows == (j + 1) * rows) by (nonlinear_arith);
        }
        j = j + 1;
    }
    proof {
        assert(tmp@ =~= tsp);
    }
    let mut k: usize = 0;
    while k < n
        invariant
            lo + n <= v.len(),
            v.len() == old(v).len(),
            n == rows * cols,
            0 <= k <= n,
            tmp@ == tsp,
            tsp.len() == n,
            forall|q: int| 0 <= q < old(v).len() && !(lo <= q < lo + n) ==> v[q] == old(v)[q],
            forall|q: int| lo <= q < lo + k ==> v[q] == tsp[q - lo],
            forall|q: int| lo + k <= q < lo + n ==> v[q] == old(v)[q],
        decreases n - k,
    {
        let x: T = tmp[k];
        v[lo + k] = x;
        k = k + 1;
    }
    proof {
        assert(seg(v@, lo as int, rows * cols) =~= tsp);
    }
}

/// Transpose `blocks` consecutive `size x size` row-major blocks of
/// `v[lo ..]` and merge them in place into the transpose of the
/// `(blocks * size) x size` matrix they form when stacked vertically.
pub fn transpose_join<T: Copy>(v: &mut Vec<T>, lo: usize, blocks: usize, size: usize)
    requires
        1 <= blocks,
        1 <= size,
        lo + blocks * (size * size) <= old(v).len(),
    ensures
        final(v).len() == old(v).len(),
        forall|i: int|
            0 <= i < old(v).len() && !(lo <= i < lo + blocks * (size * size)) ==> final(v)[i]
                == old(v)[i],
        seg(final(v)@, lo as int, blocks * (size * size)) == transpose_spec(
            seg(old(v)@, lo as int, blocks * (size * size)),
            blocks * size,
            size as int,
        ),
    decreases blocks,
{
    let _total: usize = v.len();
    proof {
        assert(size * size <= blocks * (size * size) && 0 <= size * size && (blocks * size) * size
            == blocks * (size * size)) by (nonlinear_arith)
            requires
                1 <= blocks,
                1 <= size,
        ;
    }
    if blocks == 1 {
        square_transpose(v, lo, size);
        proof {
            assert(blocks * (size * size) == size * size && blocks * size == size) by (
            nonlinear_arith)
                requires
                    blocks == 1,
            ;
        }
        return ;
    }
    let kt: usize = blocks / 2;
    let kb: usize = blocks - kt;
    let nn: usize = size * size;
    let ghost bn: int = blocks * (size * size);
    proof {
        assert(kt * nn + kb * nn == blocks * nn && 0 <= kt * nn && 0 <= kb * nn && kt * size + kb
            * size == blocks * size && (kt * size + kb * size) * size == blocks * nn && (kt * size)
            * size == kt * nn && (kb * size) * size == kb * nn && 0 <= kt * size && 0 <= kb * size
            && kt * size <= blocks * nn && kb * size <= blocks * nn) by (nonlinear_arith)
            requires
                blocks == kt + kb,
                nn == size * size,
                size >= 1,
                kt >= 0,
                kb >= 0,
        ;
    }
    let ghost s0 = seg(v@, lo as int, bn);
    let ghost s1 = seg(v@, lo as int, kt * (size * size));
    let ghost s2 = seg(v@, lo + kt * (size * size), kb * (size * size));
    transpose_join(v, lo, kt, size);
    let ghost v1 = v@;
    transpose_join(v, lo + kt * nn, kb, size);
    let ghost v2 = v@;
    shuffle(v, lo, kt * size, kb * size, size);
    proof {
        let t1 = transpose_spec(s1, kt * size, size as int);
        let t2 = transpose_spec(s2, kb * size, size as int);
        assert(seg(v1, lo as int, kt * nn) == t1);
        assert(seg(v2, lo + kt * nn, kb * nn) == transpose_spec(
            seg(v1, lo + kt * nn, kb * nn),
            kb * size,
            size as int,
        ));
        assert(seg(v1, lo + kt * nn, kb * nn) =~= s2);
        assert(seg(v2, lo as int, kt * nn) =~= t1);
        assert(seg(v2, lo as int, bn) =~= t1 + t2);
        lemma_transpose_stack(s1, s2, kt * size, kb * size, size as int);
        assert(s0 =~= s1 + s2);
        assert(seg(v@, lo as int, bn) == shuffle_spec(
            seg(v2, lo as int, bn),
            kt * size,
            kb * size,
            size as int,
        ));
    }
}

/// Split the `size x (blocks * size)` row-major matrix in
/// `v[lo .. lo + blocks * size * size]` into its `blocks` column strips of
/// width `size` and transpose each in place, leaving `blocks` consecutive
/// transposed `size x size` blocks: the transpose of the whole matrix.
pub fn partition_transpose<T: Copy>(v: &mut Vec<T>, lo: usize, blocks: usize, size: usize)
    requires
        1 <= blocks,
        1 <= size,
        lo + blocks * (size * size) <= old(v).len(),
    ensures
        final(v).len() == old(v).len(),
        forall|i: int|
            0 <= i < old(v).len() && !(lo <= i < lo + blocks * (size * size)) ==> final(v)[i]
                == old(v)[i],
        seg(final(v)@, lo as int, blocks * (size * size)) == transpose_spec(
            seg(old(v)@, lo as int, blocks * (size * size)),
            size as int,
            blocks * size,
        ),
    decreases blocks,
{
    let _total: usize = v.len();
    proof {
        assert(size * size <= blocks * (size * size) && 0 <= size * size && size * (blocks * size)
            == blocks * (size * size)) by (nonlinear_arith)
            requires
                1 <= blocks,
                1 <= size,
        ;
    }
    if blocks == 1 {
        square_transpose(v, lo, size);
        proof {
            assert(blocks * (size * size) == size * size && blocks * size == size) by (
            nonlinear_arith)
                requires
                    blocks == 1,
            ;
        }
        return ;
    }
    let kt: usize = blocks / 2;
    let kb: usize = blocks - kt;
    let nn: usize = size * size;
    let ghost bn: int = blocks * (size * size);
    proof {
        assert(kt * nn + kb * nn == blocks * nn && 0 <= kt * nn && 0 <= kb * nn && kt * size + kb
            * size == blocks * size && (kt * size + kb * size) * size == blocks * nn && (kt * size)
            * size == kt * nn && (kb * size) * size == kb * nn && 0 <= kt * size && 0 <= kb * size
            && size * (blocks * size) == blocks * nn && kt * size <= blocks * nn && kb * size
            <= blocks * nn) by (nonlinear_arith)
            requires
                blocks == kt + kb,
                nn == size * size,
                size >= 1,
                kt >= 0,
                kb >= 0,
        ;
    }
    let ghost s0 = seg(v@, lo as int, bn);
    unshuffle(v, lo, kt * size, kb * size, size);
    let ghost v1 = v@;
    let ghost u = seg(v1, lo as int, bn);
    partition_transpose(v, lo, kt, size);
    let ghost v2 = v@;
    partition_transpose(v, lo + kt * nn, kb, size);
    proof {
        assert(u == unshuffle_spec(s0, kt * size, kb * size, size as int));
        lemma_transpose_split(s0, size as int, kt * size, kb * size);
        let u1 = seg(u, 0, (kt * size) * (size as int));
        let u2 = seg(u, (kt * size) * (size as int), (kb * size) * (size as int));
        assert(u1 =~= seg(v1, lo as int, kt * nn));
        assert(u2 =~= seg(v1, lo + kt * nn, kb * nn));
        let q1 = transpose_spec(u1, size as int, kt * size);
        let q2 = transpose_spec(u2, size as int, kb * size);
        assert(seg(v2, lo as int, kt * nn) == q1);
        assert(seg(v@, lo + kt * nn, kb * nn) == transpose_spec(
            seg(v2, lo + kt * nn, kb * nn),
            size as int,
            kb * size,
        ));
        assert(seg(v2, lo + kt * nn, kb * nn) =~= u2);
        assert(seg(v@, lo as int, kt * nn) =~= q1);
        assert(seg(v@, lo as int, bn) =~= q1 + q2);
    }
}

/// Below this many elements the dispatcher hands a rectangle to
/// `copy_transpose` instead of recursing.
pub const COPY_THRESHOLD: usize = 16384;

/// Transpose the `rows x cols` row-major matrix `v[lo .. lo + rows * cols]`
/// in place, dispatching between the trivial, square, copy-based and
/// recursive strategies. Rectangles of at most `copy_threshold` elements
/// take the copy path; the result does not depend on the threshold. The
/// rest of the buffer is untouched.
pub fn transpose_range<T: Copy>(
    v: &mut Vec<T>,
    lo: usize,
    rows: usize,
    cols: usize,
    copy_threshold: usize,
)
    requires
        lo + rows * cols <= old(v).len(),
    ensures
        final(v).len() == old(v).len(),
        forall|i: int|
            0 <= i < old(v).len() && !(lo <= i < lo + rows * cols) ==> final(v)[i] == old(v)[i],
        seg(final(v)@, lo as int, rows * cols) == transpose_spec(
            seg(old(v)@, lo as int, rows * cols),
            rows as int,
            cols as int,
        ),
    decreases rows * cols,
{
    let _total: usize = v.len();
    proof {
        assert(0 <= rows * cols) by (nonlinear_arith);
    }
    if rows <= 1 || cols <= 1 {
        proof {
            crate::perm::lemma_transpose_identity(
                seg(v@, lo as int, rows * cols),
                rows as int,
                cols as int,
            );
        }
        return ;
    }
    let size: usize = rows * cols;
    if rows == cols {
        square_transpose(v, lo, rows);
        return ;
    }
    if size <= copy_threshold {
        copy_transpose(v, lo, rows, cols);
        return ;
    }
    if rows > cols {
        let sq: usize = rows / cols;
        let rem: usize = rows % cols;
        proof {
            lemma_fundamental_div_mod(rows as int, cols as int);
            assert(rows == sq * cols + rem) by (nonlinear_arith)
                requires
                    rows == cols * sq + rem,
            ;
            assert(sq >= 1) by (nonlinear_arith)
                requires
                    rows == sq * cols + rem,
                    0 <= rem < cols,
                    rows > cols,
                    sq >= 0,
            ;
            assert(sq * (cols * cols) == (sq * cols) * cols && (sq * cols) * cols + rem * cols
                == rows * cols && (sq * cols + rem) * cols == rows * cols && 0 <= rem * cols && 0
                <= sq * (cols * cols) && cols * cols <= sq * (cols * cols) && sq * cols <= rows
                && rem * cols < rows * cols && (sq * cols) * cols <= rows * cols) by (
            nonlinear_arith)
                requires
                    rows == sq * cols + rem,
                    1 <= sq,
                    0 <= rem < cols,
                    cols >= 1,
                    rows > cols,
            ;
        }
        let cc: usize = cols * cols;
        let ghost s0 = seg(v@, lo as int, rows * cols);
        let ghost h0 = seg(v@, lo as int, sq * (cols * cols));
        let ghost t0 = seg(v@, lo + sq * (cols * cols), rem * cols);
        if rem == 0 {
            transpose_join(v, lo, sq, cols);
            proof {
                assert(sq * cols == rows && sq * (cols * cols) == rows * cols) by (nonlinear_arith)
                    requires
                        rows == sq * cols + rem,
                        rem == 0,
                        cols >= 1,
                ;
            }
        } else {
            transpose_join(v, lo, sq, cols);
            let ghost v1 = v@;
            transpose_range(v, lo + sq * cc, rem, cols, copy_threshold);
            let ghost v2 = v@;
            shuffle(v, lo, sq * cols, rem, cols);
            proof {
                let t1 = transpose_spec(h0, sq * cols, cols as int);
                let t2 = transpose_spec(t0, rem as int, cols as int);
                assert(seg(v1, lo as int, sq * (cols * cols)) == t1);
                assert(seg(v1, lo + sq * (cols * cols), rem * cols) =~= t0);
                assert(seg(v2, lo + sq * (cols * cols), rem * cols) == transpose_spec(
                    seg(v1, lo + sq * (cols * cols), rem * cols),
                    rem as int,
                    cols as int,
                ));
                assert(seg(v2, lo as int, sq * (cols * cols)) =~= t1);
                assert(seg(v2, lo as int, rows * cols) =~= t1 + t2);
                lemma_transpose_stack(h0, t0, sq * cols, rem as int, cols as int);
                assert(s0 =~= h0 + t0);
                assert(seg(v@, lo as int, (sq * cols + rem) * cols) == shuffle_spec(
                    seg(v2, lo as int, (sq * cols + rem) * cols),
                    sq * cols,
                    rem as int,
                    cols as int,
                ));
                assert(seg(v@, lo as int, rows * cols) == shuffle_spec(
                    t1 + t2,
                    sq * cols,
                    rem as int,
                    cols as int,
                ));
            }
        }
    } else {
        let sq: usize = cols / rows;
        let rem: usize = cols % rows;
        proof {
            lemma_fundamental_div_mod(cols as int, rows as int);
            assert(cols == sq * rows + rem) by (nonlinear_arith)
                requires
                    cols == rows * sq + rem,
            ;
            assert(sq >= 1) by (nonlinear_arith)
                requires
                    cols == sq * rows + rem,
                    0 <= rem < rows,
                    cols > rows,
                    sq >= 0,
            ;
            assert(sq * (rows * rows) == (sq * rows) * rows && (sq * rows) * rows + rows * rem
                == rows * cols && (sq * rows + rem) * rows == rows * cols && 0 <= rows * rem && 0
                <= sq * (rows * rows) && rows * rows <= sq * (rows * rows) && sq * rows <= cols
                && rows * rem < rows * cols && (sq * rows) * rows <= rows * cols && rows * (sq
                * rows) == (sq * rows) * rows && rows * rem == rem * rows) by (nonlinear_arith)
                requires
                    cols == sq * rows + rem,
                    1 <= sq,
                    0 <= rem < rows,
                    rows >= 1,
                    cols > rows,
            ;
        }
        let rr: usize = rows * rows;
        let ghost s0 = seg(v@, lo as int, rows * cols);
        if rem == 0 {
            partition_transpose(v, lo, sq, rows);
            proof {
                assert(sq * rows == cols && sq * (rows * rows) == rows * cols) by (nonlinear_arith)
                    requires
                        cols == sq * rows + rem,
                        rem == 0,
                        rows >= 1,
                ;
            }
        } else {
            unshuffle(v, lo, sq * rows, rem, rows);
            let ghost v1 = v@;
            let ghost u = seg(v1, lo as int, rows * cols);
            partition_transpose(v, lo, sq, rows);
            let ghost v2 = v@;
            transpose_range(v, lo + sq * rr, rows, rem, copy_threshold);
            proof {
                assert(seg(old(v)@, lo as int, (sq * rows + rem) * rows) =~= s0);
                assert(u == unshuffle_spec(s0, sq * rows, rem as int, rows as int));
                lemma_transpose_split(s0, rows as int, sq * rows, rem as int);
                let u1 = seg(u, 0, (sq * rows) * rows);
                let u2 = seg(u, (sq * rows) * rows, rem * rows);
                assert(u1 =~= seg(v1, lo as int, sq * (rows * rows)));
                assert(u2 =~= seg(v1, lo + sq * (rows * rows), rows * rem));
                let q1 = transpose_spec(u1, rows as int, sq * rows);
                let q2 = transpose_spec(u2, rows as int, rem as int);
                assert(seg(v2, lo as int, sq * (rows * rows)) == q1);
                assert(seg(v@, lo + sq * (rows * rows), rows * rem) == transpose_spec(
                    seg(v2, lo + sq * (rows * rows), rows * rem),
                    rows as int,
                    rem as int,
                ));
                assert(seg(v2, lo + sq * (rows * rows), rows * rem) =~= u2);
                assert(seg(v@, lo as int, sq * (rows * rows)) =~= q1);
                assert(seg(v@, lo as int, rows * cols) =~= q1 + q2);
            }
        }
    }
}

/// Transpose the `rows x cols` row-major matrix held in `v` in place, so
/// that afterwards `v[j * rows + i]` holds what `v[i * cols + j]` held
/// before, for all `0 <= i < rows` and `0 <= j < cols`.
pub fn transpose<T: Copy>(v: &mut Vec<T>, shape: (usize, usize))
    requires
        old(v).len() == shape.0 * shape.1,
    ensures
        final(v).len() == old(v).len(),
        final(v)@ == transpose_spec(old(v)@, shape.0 as int, shape.1 as int),
{
    let (rows, cols) = shape;
    transpose_range(v, 0, rows, cols, COPY_THRESHOLD);
    proof {
        assert(seg(v@, 0, rows * cols) =~= v@);
        assert(seg(old(v)@, 0, rows * cols) =~= old(v)@);
    }
}

/// Transposition strategy for one fixed rectangular shape with more than
/// one row and more than one column, always taking the recursive path.
pub struct Gw18 {
    rows: usize,
    cols: usize,
    square: usize,
}

impl Gw18 {
    /// Number of rows of the shape this strategy was built for.
    pub closed spec fn spec_rows(&self) -> int {
        self.rows as int
    }

    /// Number of columns of the shape this strategy was built for.
    pub closed spec fn spec_cols(&self) -> int {
        self.cols as int
    }

    /// The shape is genuinely two-dimensional, its element count fits the
    /// machine, and the cached square side is the shorter dimension.
    pub closed spec fn wf(&self) -> bool {
        &&& self.rows > 1
        &&& self.cols > 1
        &&& self.rows * self.cols <= usize::MAX
        &&& self.square == if self.rows > self.cols {
            self.cols as int
        } else {
            self.rows as int
        }
    }

    /// Build the strategy for the shape `(rows, cols)`.
    pub fn new(shape: (usize, usize)) -> (r: Self)
        requires
            shape.0 > 1,
            shape.1 > 1,
            shape.0 * shape.1 <= usize::MAX,
        ensures
            r.wf(),
            r.spec_rows() == shape.0,
            r.spec_cols() == shape.1,
    {
        let (rows, cols) = shape;
        let square: usize = if rows > cols {
            cols
        } else {
            rows
        };
        Gw18 { rows, cols, square }
    }

    /// Number of elements of a buffer this strategy permutes.
    pub fn len(&self) -> (n: usize)
        requires
            self.wf(),
        ensures
            n == self.spec_rows() * self.spec_cols(),
    {
        self.rows * self.cols
    }

    /// Transpose `values`, the `rows x cols` row-major matrix of this
    /// strategy's shape, in place.
    pub fn permute<T: Copy>(&self, values: &mut Vec<T>)
        requires
            self.wf(),
            old(values).len() == self.spec_rows() * self.spec_cols(),
        ensures
            final(values).len() == old(values).len(),
            final(values)@ == transpose_spec(old(values)@, self.spec_rows(), self.spec_cols()),
    {
        transpose_range(values, 0, self.rows, self.cols, 0);
        proof {
            assert(seg(values@, 0, self.rows * self.cols) =~= values@);
            assert(seg(old(values)@, 0, self.rows * self.cols) =~= old(values)@);
        }
    }
}

} // verus!
