//! Sequence-level model of the permutations performed by the in-place
//! transposition engine: the transpose of a row-major matrix, the
//! shuffle/unshuffle interleavings, and the algebraic laws relating them.

use vstd::prelude::*;
use vstd::arithmetic::div_mod::{lemma_fundamental_div_mod, lemma_fundamental_div_mod_converse};

verus! {

/// The `len` elements of `s` starting at `lo`.
pub open spec fn seg<T>(s: Seq<T>, lo: int, len: int) -> Seq<T> {
    s.subrange(lo, lo + len)
}

/// `post` agrees with `pre` everywhere outside `[lo, lo + len)`.
pub open spec fn frame<T>(pre: Seq<T>, post: Seq<T>, lo: int, len: int) -> bool {
    &&& post.len() == pre.len()
    &&& forall|i: int| 0 <= i < pre.len() && !(lo <= i < lo + len) ==> post[i] == pre[i]
}

/// The transpose of `s`, read as a `rows x cols` matrix in row-major order.
/// Entry `(i, j)` of the input, stored at `i * cols + j`, moves to entry
/// `(j, i)` of the `cols x rows` result, stored at `j * rows + i`.
pub open spec fn transpose_spec<T>(s: Seq<T>, rows: int, cols: int) -> Seq<T> {
    Seq::new(s.len(), |k: int| s[(k % rows) * cols + k / rows])
}

/// Interleaving permutation on a buffer of length `(a + b) * m`, read as a
/// run of `m` a-blocks followed by a run of `m` b-blocks:
/// `A_0 .. A_{m-1} B_0 .. B_{m-1}` becomes `A_0 B_0 A_1 B_1 .. A_{m-1} B_{m-1}`.
pub open spec fn shuffle_spec<T>(s: Seq<T>, a: int, b: int, m: int) -> Seq<T> {
    Seq::new(s.len(), |k: int| {
        let t: int = k / (a + b);
        let u: int = k % (a + b);
        if u < a {
            s[t * a + u]
        } else {
            s[a * m + t * b + (u - a)]
        }
    })
}

/// Exact inverse of `shuffle_spec`: the buffer read as `m` groups
/// `A_t B_t` becomes the run of all a-blocks followed by all b-blocks.
pub open spec fn unshuffle_spec<T>(s: Seq<T>, a: int, b: int, m: int) -> Seq<T> {
    Seq::new(s.len(), |k: int| {
        if k < a * m {
            let t: int = k / a;
            let u: int = k % a;
            s[t * (a + b) + u]
        } else {
            let t: int = (k - a * m) / b;
            let u: int = (k - a * m) % b;
            s[t * (a + b) + a + u]
        }
    })
}

/// Division of a number below `w * m` by `w` lands below `m`.
pub proof fn lemma_div_below(k: int, w: int, m: int)
    requires
        w >= 1,
        0 <= k,
        k < w * m,
    ensures
        0 <= k / w < m,
{
    lemma_fundamental_div_mod(k, w);
    let q: int = k / w;
    let r: int = k % w;
    assert(0 <= q < m) by (nonlinear_arith)
        requires
            w >= 1,
            0 <= k,
            k < w * m,
            k == w * q + r,
            0 <= r < w,
    ;
}

/// Where entry `(i, j)` of the matrix lands in its transpose.
pub proof fn lemma_transpose_at<T>(s: Seq<T>, rows: int, cols: int, i: int, j: int)
    requires
        s.len() == rows * cols,
        0 <= i < rows,
        0 <= j < cols,
    ensures
        0 <= i * cols + j < s.len(),
        0 <= j * rows + i < s.len(),
        transpose_spec(s, rows, cols)[j * rows + i] == s[i * cols + j],
{
    assert(0 <= i * cols + j < rows * cols && 0 <= j * rows + i < rows * cols) by (nonlinear_arith)
        requires
            0 <= i < rows,
            0 <= j < cols,
    ;
    lemma_fundamental_div_mod_converse(j * rows + i, rows, j, i);
}

/// Where element `u` of a-block `t` lands under `shuffle_spec`.
pub proof fn lemma_shuffle_at_a<T>(s: Seq<T>, a: int, b: int, m: int, t: int, u: int)
    requires
        s.len() == (a + b) * m,
        b >= 0,
        0 <= t < m,
        0 <= u < a,
    ensures
        0 <= t * a + u < s.len(),
        0 <= t * (a + b) + u < s.len(),
        shuffle_spec(s, a, b, m)[t * (a + b) + u] == s[t * a + u],
{
    let w: int = a + b;
    assert(0 <= t * a + u && t * a + u < a * m && a * m <= w * m && 0 <= t * w + u < w * m)
        by (nonlinear_arith)
        requires
            b >= 0,
            0 <= t < m,
            0 <= u < a,
            w == a + b,
    ;
    lemma_fundamental_div_mod_converse(t * w + u, w, t, u);
}

/// Where element `u` of b-block `t` lands under `shuffle_spec`.
pub proof fn lemma_shuffle_at_b<T>(s: Seq<T>, a: int, b: int, m: int, t: int, u: int)
    requires
        s.len() == (a + b) * m,
        a >= 0,
        0 <= t < m,
        0 <= u < b,
    ensures
        0 <= a * m + t * b + u < s.len(),
        0 <= t * (a + b) + a + u < s.len(),
        shuffle_spec(s, a, b, m)[t * (a + b) + a + u] == s[a * m + t * b + u],
{
    let w: int = a + b;
    assert(0 <= a * m + t * b + u && a * m + t * b + u < w * m && 0 <= t * w + (a + u) < w * m)
        by (nonlinear_arith)
        requires
            a >= 0,
            0 <= t < m,
            0 <= u < b,
            w == a + b,
    ;
    lemma_fundamental_div_mod_converse(t * w + (a + u), w, t, a + u);
}

/// Where element `u` of a-block `t` lands under `unshuffle_spec`.
pub proof fn lemma_unshuffle_at_a<T>(s: Seq<T>, a: int, b: int, m: int, t: int, u: int)
    requires
        s.len() == (a + b) * m,
        b >= 0,
        0 <= t < m,
        0 <= u < a,
    ensures
        0 <= t * a + u < s.len(),
        0 <= t * (a + b) + u < s.len(),
        unshuffle_spec(s, a, b, m)[t * a + u] == s[t * (a + b) + u],
{
    let w: int = a + b;
    assert(0 <= t * a + u && t * a + u < a * m && a * m <= w * m && 0 <= t * w + u < w * m)
        by (nonlinear_arith)
        requires
            b >= 0,
            0 <= t < m,
            0 <= u < a,
            w == a + b,
    ;
    lemma_fundamental_div_mod_converse(t * a + u, a, t, u);
}

/// Where element `u` of b-block `t` lands under `unshuffle_spec`.
pub proof fn lemma_unshuffle_at_b<T>(s: Seq<T>, a: int, b: int, m: int, t: int, u: int)
    requires
        s.len() == (a + b) * m,
        a >= 0,
        0 <= t < m,
        0 <= u < b,
    ensures
        0 <= a * m + t * b + u < s.len(),
        0 <= t * (a + b) + a + u < s.len(),
        unshuffle_spec(s, a, b, m)[a * m + t * b + u] == s[t * (a + b) + a + u],
{
    let w: int = a + b;
    assert(0 <= t * b + u && t * b + u < b * m && a * m + b * m == w * m && 0 <= t * w + a + u
        < w * m && a * m >= 0) by (nonlinear_arith)
        requires
            a >= 0,
            0 <= t < m,
            0 <= u < b,
            w == a + b,
    ;
    lemma_fundamental_div_mod_converse(t * b + u, b, t, u);
    assert(a * m + t * b + u - a * m == t * b + u);
}

/// Degenerate shapes shuffle to themselves: a single group, or one of the
/// two block families empty.
pub proof fn lemma_shuffle_identity<T>(s: Seq<T>, a: int, b: int, m: int)
    requires
        s.len() == (a + b) * m,
        a >= 0,
        b >= 0,
        m >= 0,
        m <= 1 || a == 0 || b == 0,
    ensures
        shuffle_spec(s, a, b, m) == s,
        unshuffle_spec(s, a, b, m) == s,
{
    let w: int = a + b;
    assert(a * m + b * m == w * m) by (nonlinear_arith)
        requires
            w == a + b,
    ;
    assert forall|k: int| 0 <= k < s.len() implies shuffle_spec(s, a, b, m)[k] == s[k]
        && unshuffle_spec(s, a, b, m)[k] == s[k] by {
        if k < a * m {
            assert(a >= 1 && m >= 1) by (nonlinear_arith)
                requires
                    a >= 0,
                    m >= 0,
                    0 <= k < a * m,
            ;
            lemma_div_below(k, a, m);
            lemma_fundamental_div_mod(k, a);
            let t: int = k / a;
            let u: int = k % a;
            assert(k == t * a + u) by (nonlinear_arith)
                requires
                    k == a * t + u,
            ;
            lemma_unshuffle_at_a(s, a, b, m, t, u);
            lemma_shuffle_at_a(s, a, b, m, t, u);
            // with m <= 1 we have t == 0; with b == 0 we have w == a; either way
            // the source and target indices coincide.
            assert(t * w + u == k) by (nonlinear_arith)
                requires
                    k == t * a + u,
                    w == a + b,
                    t == 0 || b == 0,
            ;
        } else {
            let k2: int = k - a * m;
            assert(0 <= k2 < b * m);
            assert(b >= 1 && m >= 1) by (nonlinear_arith)
                requires
                    b >= 0,
                    m >= 0,
                    0 <= k2 < b * m,
            ;
            lemma_div_below(k2, b, m);
            lemma_fundamental_div_mod(k2, b);
            let t: int = k2 / b;
            let u: int = k2 % b;
            assert(k2 == t * b + u) by (nonlinear_arith)
                requires
                    k2 == b * t + u,
            ;
            lemma_unshuffle_at_b(s, a, b, m, t, u);
            lemma_shuffle_at_b(s, a, b, m, t, u);
            assert(a * m == a) by (nonlinear_arith)
                requires
                    m == 1 || a == 0,
            ;
            assert(t * w + a + u == k) by (nonlinear_arith)
                requires
                    k == a * m + t * b + u,
                    a * m == a,
                    w == a + b,
                    t == 0 || a == 0,
            ;
        }
    };
    assert(shuffle_spec(s, a, b, m) =~= s);
    assert(unshuffle_spec(s, a, b, m) =~= s);
}

/// Unshuffling a shuffled buffer restores it.
pub proof fn lemma_unshuffle_of_shuffle<T>(s: Seq<T>, a: int, b: int, m: int)
    requires
        s.len() == (a + b) * m,
        a >= 0,
        b >= 0,
        m >= 0,
    ensures
        unshuffle_spec(shuffle_spec(s, a, b, m), a, b, m) == s,
{
    let w: int = a + b;
    let ss = shuffle_spec(s, a, b, m);
    assert(a * m + b * m == w * m) by (nonlinear_arith)
        requires
            w == a + b,
    ;
    assert forall|k: int| 0 <= k < s.len() implies unshuffle_spec(ss, a, b, m)[k] == s[k] by {
        if k < a * m {
            lemma_div_below(k, a, m);
            lemma_fundamental_div_mod(k, a);
            let t: int = k / a;
            let u: int = k % a;
            assert(k == t * a + u) by (nonlinear_arith)
                requires
                    k == a * t + u,
            ;
            lemma_unshuffle_at_a(ss, a, b, m, t, u);
            lemma_shuffle_at_a(s, a, b, m, t, u);
        } else {
            let k2: int = k - a * m;
            assert(0 <= k2 < b * m);
            lemma_div_below(k2, b, m);
            lemma_fundamental_div_mod(k2, b);
            let t: int = k2 / b;
            let u: int = k2 % b;
            assert(k2 == t * b + u) by (nonlinear_arith)
                requires
                    k2 == b * t + u,
            ;
            lemma_unshuffle_at_b(ss, a, b, m, t, u);
            lemma_shuffle_at_b(s, a, b, m, t, u);
        }
    };
    assert(unshuffle_spec(ss, a, b, m) =~= s);
}

/// Shuffling an unshuffled buffer restores it.
pub proof fn lemma_shuffle_of_unshuffle<T>(s: Seq<T>, a: int, b: int, m: int)
    requires
        s.len() == (a + b) * m,
        a >= 0,
        b >= 0,
        m >= 0,
    ensures
        shuffle_spec(unshuffle_spec(s, a, b, m), a, b, m) == s,
{
    let w: int = a + b;
    let us = unshuffle_spec(s, a, b, m);
    assert forall|k: int| 0 <= k < s.len() implies shuffle_spec(us, a, b, m)[k] == s[k] by {
        assert(w >= 1 && m >= 1) by (nonlinear_arith)
            requires
                a >= 0,
                b >= 0,
                m >= 0,
                w == a + b,
                0 <= k < (a + b) * m,
        ;
        lemma_div_below(k, w, m);
        lemma_fundamental_div_mod(k, w);
        let t: int = k / w;
        let u: int = k % w;
        assert(k == t * w + u) by (nonlinear_arith)
            requires
                k == w * t + u,
        ;
        if u < a {
            lemma_shuffle_at_a(us, a, b, m, t, u);
            lemma_unshuffle_at_a(s, a, b, m, t, u);
        } else {
            lemma_shuffle_at_b(us, a, b, m, t, u - a);
            lemma_unshuffle_at_b(s, a, b, m, t, u - a);
        }
    };
    assert(shuffle_spec(us, a, b, m) =~= s);
}

/// One layer of the recursive shuffle. `s` is the separated buffer; `e` is
/// `s` after the middle exchange, which moves the first `ml` b-blocks in
/// front of the last `m - ml` a-blocks. Shuffling the two halves of `e`
/// independently then interleaves the whole buffer.
pub proof fn lemma_shuffle_step<T>(s: Seq<T>, e: Seq<T>, a: int, b: int, m: int, ml: int)
    requires
        a >= 0,
        b >= 0,
        2 <= m,
        1 <= ml < m,
        s.len() == (a + b) * m,
        e.len() == (a + b) * m,
        forall|i: int| 0 <= i < a * ml ==> e[i] == s[i],
        forall|i: int| a * ml <= i < (a + b) * ml ==> e[i] == s[i + a * m - a * ml],
        forall|i: int| (a + b) * ml <= i < (a + b) * ml + a * (m - ml) ==> e[i] == s[i - b * ml],
        forall|i: int| a * m + b * ml <= i < (a + b) * m ==> e[i] == s[i],
    ensures
        shuffle_spec(s, a, b, m) == shuffle_spec(seg(e, 0, (a + b) * ml), a, b, ml) + shuffle_spec(
            seg(e, (a + b) * ml, (a + b) * (m - ml)),
            a,
            b,
            m - ml,
        ),
{
    let w: int = a + b;
    let mr: int = m - ml;
    assert(w * m == w * ml + w * mr && a * m == a * ml + a * mr && b * m == b * ml + b * mr && 0
        <= a * ml && 0 <= b * ml && 0 <= a * mr && 0 <= b * mr && a * ml <= w * ml && w * ml
        <= w * m && w * ml + a * mr <= w * m) by (nonlinear_arith)
        requires
            a >= 0,
            b >= 0,
            2 <= m,
            1 <= ml < m,
            w == a + b,
            mr == m - ml,
    ;
    let el = seg(e, 0, w * ml);
    let er = seg(e, w * ml, w * mr);
    let left = shuffle_spec(el, a, b, ml);
    let right = shuffle_spec(er, a, b, mr);
    assert(left.len() == w * ml && right.len() == w * mr);
    assert forall|k: int| 0 <= k < w * m implies shuffle_spec(s, a, b, m)[k] == (left + right)[k]
        by {
        assert(w >= 1) by (nonlinear_arith)
            requires
                a >= 0,
                b >= 0,
                0 <= k < w * m,
                w == a + b,
        ;
        lemma_div_below(k, w, m);
        lemma_fundamental_div_mod(k, w);
        let t: int = k / w;
        let u: int = k % w;
        assert(k == t * w + u) by (nonlinear_arith)
            requires
                k == w * t + u,
        ;
        if t < ml {
            assert(k < w * ml) by (nonlinear_arith)
                requires
                    k == t * w + u,
                    0 <= u < w,
                    t < ml,
            ;
            if u < a {
                lemma_shuffle_at_a(s, a, b, m, t, u);
                lemma_shuffle_at_a(el, a, b, ml, t, u);
                assert(t * a + u < a * ml) by (nonlinear_arith)
                    requires
                        0 <= u < a,
                        0 <= t < ml,
                ;
            } else {
                let u2: int = u - a;
                lemma_shuffle_at_b(s, a, b, m, t, u2);
                lemma_shuffle_at_b(el, a, b, ml, t, u2);
                let p: int = a * ml + t * b + u2;
                assert(a * ml <= p < w * ml) by (nonlinear_arith)
                    requires
                        p == a * ml + t * b + u2,
                        0 <= u2 < b,
                        0 <= t < ml,
                        w == a + b,
                        a >= 0,
                ;
                assert(e[p] == s[p + a * m - a * ml]);
                assert(p + a * m - a * ml == a * m + t * b + u2);
            }
        } else {
            let t2: int = t - ml;
            assert(w * ml <= k) by (nonlinear_arith)
                requires
                    k == t * w + u,
                    u >= 0,
                    t >= ml,
                    w >= 1,
            ;
            assert(k - w * ml == t2 * w + u) by (nonlinear_arith)
                requires
                    k == t * w + u,
                    t2 == t - ml,
            ;
            if u < a {
                lemma_shuffle_at_a(s, a, b, m, t, u);
                lemma_shuffle_at_a(er, a, b, mr, t2, u);
                let p: int = w * ml + t2 * a + u;
                assert(w * ml <= p < w * ml + a * mr && p - b * ml == t * a + u) by (
                nonlinear_arith)
                    requires
                        p == w * ml + t2 * a + u,
                        0 <= u < a,
                        0 <= t2 < mr,
                        t == ml + t2,
                        w == a + b,
                ;
                assert(e[p] == s[p - b * ml]);
            } else {
                let u2: int = u - a;
                lemma_shuffle_at_b(s, a, b, m, t, u2);
                lemma_shuffle_at_b(er, a, b, mr, t2, u2);
                let p: int = w * ml + a * mr + t2 * b + u2;
                assert(a * m + b * ml <= p < w * m && p == a * m + t * b + u2) by (nonlinear_arith)
                    requires
                        p == w * ml + a * mr + t2 * b + u2,
                        0 <= u2 < b,
                        0 <= t2 < mr,
                        t == ml + t2,
                        w == a + b,
                        mr == m - ml,
                        a >= 0,
                        b >= 0,
                        ml >= 1,
                ;
                assert(e[p] == s[p]);
            }
        }
    };
    assert(shuffle_spec(s, a, b, m) =~= left + right);
}

/// One layer of the recursive unshuffle. `c` is the buffer after the two
/// halves have been unshuffled independently; `f` is `c` after the middle
/// exchange, which moves the last `m - ml` a-blocks in front of the first
/// `ml` b-blocks. The result is the unshuffle of the whole buffer `s`.
pub proof fn lemma_unshuffle_step<T>(s: Seq<T>, c: Seq<T>, f: Seq<T>, a: int, b: int, m: int, ml: int)
    requires
        a >= 0,
        b >= 0,
        2 <= m,
        1 <= ml < m,
        s.len() == (a + b) * m,
        f.len() == (a + b) * m,
        c == unshuffle_spec(seg(s, 0, (a + b) * ml), a, b, ml) + unshuffle_spec(
            seg(s, (a + b) * ml, (a + b) * (m - ml)),
            a,
            b,
            m - ml,
        ),
        forall|i: int| 0 <= i < a * ml ==> f[i] == c[i],
        forall|i: int| a * ml <= i < a * m ==> f[i] == c[i + b * ml],
        forall|i: int| a * m <= i < a * m + b * ml ==> f[i] == c[i - a * (m - ml)],
        forall|i: int| a * m + b * ml <= i < (a + b) * m ==> f[i] == c[i],
    ensures
        f == unshuffle_spec(s, a, b, m),
{
    let w: int = a + b;
    let mr: int = m - ml;
    assert(w * m == w * ml + w * mr && a * m == a * ml + a * mr && b * m == b * ml + b * mr && w
        * m == a * m + b * m && 0 <= a * ml && 0 <= b * ml && 0 <= a * mr && 0 <= b * mr && a * ml
        <= w * ml && w * ml <= w * m) by (nonlinear_arith)
        requires
            a >= 0,
            b >= 0,
            2 <= m,
            1 <= ml < m,
            w == a + b,
            mr == m - ml,
    ;
    let sl = seg(s, 0, w * ml);
    let sr = seg(s, w * ml, w * mr);
    let ul = unshuffle_spec(sl, a, b, ml);
    let ur = unshuffle_spec(sr, a, b, mr);
    assert(ul.len() == w * ml && ur.len() == w * mr);
    let us = unshuffle_spec(s, a, b, m);
    assert forall|k: int| 0 <= k < w * m implies f[k] == us[k] by {
        if k < a * m {
            assert(a >= 1) by (nonlinear_arith)
                requires
                    a >= 0,
                    m >= 0,
                    0 <= k < a * m,
            ;
            lemma_div_below(k, a, m);
            lemma_fundamental_div_mod(k, a);
            let t: int = k / a;
            let u: int = k % a;
            assert(k == t * a + u) by (nonlinear_arith)
                requires
                    k == a * t + u,
            ;
            lemma_unshuffle_at_a(s, a, b, m, t, u);
            if t < ml {
                assert(k < a * ml && k < w * ml && t * w + u < w * ml) by (nonlinear_arith)
                    requires
                        k == t * a + u,
                        0 <= u < a,
                        0 <= t < ml,
                        w == a + b,
                        b >= 0,
                ;
                lemma_unshuffle_at_a(sl, a, b, ml, t, u);
            } else {
                let t2: int = t - ml;
                assert(a * ml <= k && k + b * ml - w * ml == t2 * a + u && w * ml + t2 * w + u == t
                    * w + u && t2 * w + u < w * mr && k + b * ml >= w * ml) by (nonlinear_arith)
                    requires
                        k == t * a + u,
                        0 <= u < a,
                        t == ml + t2,
                        0 <= t2 < mr,
                        w == a + b,
                        b >= 0,
                        ml >= 1,
                ;
                assert(f[k] == c[k + b * ml]);
                lemma_unshuffle_at_a(sr, a, b, mr, t2, u);
            }
        } else {
            let k2: int = k - a * m;
            assert(0 <= k2 < b * m);
            assert(b >= 1) by (nonlinear_arith)
                requires
                    b >= 0,
                    m >= 0,
                    0 <= k2 < b * m,
            ;
            lemma_div_below(k2, b, m);
            lemma_fundamental_div_mod(k2, b);
            let t: int = k2 / b;
            let u: int = k2 % b;
            assert(k2 == t * b + u) by (nonlinear_arith)
                requires
                    k2 == b * t + u,
            ;
            lemma_unshuffle_at_b(s, a, b, m, t, u);
            if t < ml {
                let p: int = k - a * mr;
                assert(k < a * m + b * ml && p == a * ml + t * b + u && a * ml <= p < w * ml) by (
                nonlinear_arith)
                    requires
                        k == a * m + t * b + u,
                        k2 == t * b + u,
                        p == k - a * mr,
                        0 <= u < b,
                        0 <= t < ml,
                        w == a + b,
                        a >= 0,
                        a * m == a * ml + a * mr,
                ;
                assert(f[k] == c[p]);
                lemma_unshuffle_at_b(sl, a, b, ml, t, u);
            } else {
                let t2: int = t - ml;
                let p: int = k - w * ml;
                assert(a * m + b * ml <= k && p == a * mr + t2 * b + u && w * ml + t2 * w + a + u
                    == t * w + a + u && t2 * w + a + u < w * mr) by (nonlinear_arith)
                    requires
                        k == a * m + t * b + u,
                        p == k - w * ml,
                        0 <= u < b,
                        t == ml + t2,
                        0 <= t2 < mr,
                        w == a + b,
                        a >= 0,
                        b >= 0,
                        ml >= 1,
                        a * m == a * ml + a * mr,
                ;
                assert(f[k] == c[k]);
                lemma_unshuffle_at_b(sr, a, b, mr, t2, u);
            }
        }
    };
    assert(f =~= us);
}

/// Transpose of two matrices stacked on top of one another: transposing the
/// two stacks separately and interleaving their rows gives the transpose of
/// the whole stack.
pub proof fn lemma_transpose_stack<T>(s1: Seq<T>, s2: Seq<T>, r1: int, r2: int, c: int)
    requires
        r1 >= 0,
        r2 >= 0,
        c >= 0,
        s1.len() == r1 * c,
        s2.len() == r2 * c,
    ensures
        transpose_spec(s1 + s2, r1 + r2, c) == shuffle_spec(
            transpose_spec(s1, r1, c) + transpose_spec(s2, r2, c),
            r1,
            r2,
            c,
        ),
{
    let w: int = r1 + r2;
    let t1 = transpose_spec(s1, r1, c);
    let t2 = transpose_spec(s2, r2, c);
    assert(r1 * c + r2 * c == w * c) by (nonlinear_arith)
        requires
            w == r1 + r2,
    ;
    assert forall|k: int| 0 <= k < w * c implies transpose_spec(s1 + s2, w, c)[k] == shuffle_spec(
        t1 + t2,
        r1,
        r2,
        c,
    )[k] by {
        assert(w >= 1 && c >= 1) by (nonlinear_arith)
            requires
                r1 >= 0,
                r2 >= 0,
                c >= 0,
                w == r1 + r2,
                0 <= k < w * c,
        ;
        lemma_div_below(k, w, c);
        lemma_fundamental_div_mod(k, w);
        let t: int = k / w;
        let u: int = k % w;
        assert(k == t * w + u) by (nonlinear_arith)
            requires
                k == w * t + u,
        ;
        lemma_transpose_at(s1 + s2, w, c, u, t);
        if u < r1 {
            lemma_shuffle_at_a(t1 + t2, r1, r2, c, t, u);
            assert(t * r1 + u < r1 * c) by (nonlinear_arith)
                requires
                    0 <= u < r1,
                    0 <= t < c,
            ;
            lemma_transpose_at(s1, r1, c, u, t);
            assert(u * c + t < r1 * c) by (nonlinear_arith)
                requires
                    0 <= u < r1,
                    0 <= t < c,
            ;
        } else {
            let u2: int = u - r1;
            lemma_shuffle_at_b(t1 + t2, r1, r2, c, t, u2);
            lemma_transpose_at(s2, r2, c, u2, t);
            assert(u * c + t == r1 * c + (u2 * c + t) && r1 * c <= u * c + t) by (nonlinear_arith)
                requires
                    u == r1 + u2,
                    0 <= u2 < r2,
                    0 <= t < c,
                    r1 >= 0,
            ;
        }
    };
    assert(transpose_spec(s1 + s2, w, c) =~= shuffle_spec(t1 + t2, r1, r2, c));
}

/// Transpose of two matrices laid side by side: unshuffling the columns
/// apart and transposing the two parts separately gives the transpose of the
/// whole matrix.
pub proof fn lemma_transpose_split<T>(s: Seq<T>, r: int, c1: int, c2: int)
    requires
        r >= 0,
        c1 >= 0,
        c2 >= 0,
        s.len() == r * (c1 + c2),
    ensures
        transpose_spec(s, r, c1 + c2) == transpose_spec(
            seg(unshuffle_spec(s, c1, c2, r), 0, c1 * r),
            r,
            c1,
        ) + transpose_spec(seg(unshuffle_spec(s, c1, c2, r), c1 * r, c2 * r), r, c2),
{
    let w: int = c1 + c2;
    let us = unshuffle_spec(s, c1, c2, r);
    assert(s.len() == w * r && c1 * r + c2 * r == w * r && 0 <= c1 * r && 0 <= c2 * r && c1 * r
        == r * c1 && c2 * r == r * c2) by (nonlinear_arith)
        requires
            r >= 0,
            c1 >= 0,
            c2 >= 0,
            w == c1 + c2,
            s.len() == r * w,
    ;
    let u1 = seg(us, 0, c1 * r);
    let u2 = seg(us, c1 * r, c2 * r);
    let q1 = transpose_spec(u1, r, c1);
    let q2 = transpose_spec(u2, r, c2);
    assert(q1.len() == c1 * r && q2.len() == c2 * r) by {
        assert(u1.len() == c1 * r && u2.len() == c2 * r);
    };
    assert forall|k: int| 0 <= k < w * r implies transpose_spec(s, r, w)[k] == (q1 + q2)[k] by {
        assert(w >= 1 && r >= 1) by (nonlinear_arith)
            requires
                c1 >= 0,
                c2 >= 0,
                r >= 0,
                w == c1 + c2,
                0 <= k < w * r,
        ;
        lemma_div_below(k, r, w);
        lemma_fundamental_div_mod(k, r);
        let j: int = k / r;
        let i: int = k % r;
        assert(k == j * r + i) by (nonlinear_arith)
            requires
                k == r * j + i,
        ;
        lemma_transpose_at(s, r, w, i, j);
        if j < c1 {
            assert(k < c1 * r) by (nonlinear_arith)
                requires
                    k == j * r + i,
                    0 <= i < r,
                    0 <= j < c1,
            ;
            lemma_transpose_at(u1, r, c1, i, j);
            lemma_unshuffle_at_a(s, c1, c2, r, i, j);
            assert(i * c1 + j < c1 * r) by (nonlinear_arith)
                requires
                    0 <= i < r,
                    0 <= j < c1,
            ;
        } else {
            let j2: int = j - c1;
            assert(c1 * r <= k && k - c1 * r == j2 * r + i) by (nonlinear_arith)
                requires
                    k == j * r + i,
                    j == c1 + j2,
                    0 <= i < r,
                    0 <= j2,
            ;
            lemma_transpose_at(u2, r, c2, i, j2);
            lemma_unshuffle_at_b(s, c1, c2, r, i, j2);
        }
    };
    assert(transpose_spec(s, r, w) =~= q1 + q2);
}

/// Transposing twice restores the matrix.
pub proof fn lemma_transpose_involution<T>(s: Seq<T>, rows: int, cols: int)
    requires
        s.len() == rows * cols,
        rows >= 0,
        cols >= 0,
    ensures
        transpose_spec(transpose_spec(s, rows, cols), cols, rows) == s,
{
    let t1 = transpose_spec(s, rows, cols);
    assert(rows * cols == cols * rows) by (nonlinear_arith);
    assert forall|k: int| 0 <= k < s.len() implies transpose_spec(t1, cols, rows)[k] == s[k] by {
        assert(rows >= 1 && cols >= 1) by (nonlinear_arith)
            requires
                rows >= 0,
                cols >= 0,
                0 <= k < rows * cols,
        ;
        lemma_div_below(k, cols, rows);
        lemma_fundamental_div_mod(k, cols);
        let i: int = k / cols;
        let j: int = k % cols;
        assert(k == i * cols + j) by (nonlinear_arith)
            requires
                k == cols * i + j,
        ;
        lemma_transpose_at(t1, cols, rows, j, i);
        lemma_transpose_at(s, rows, cols, i, j);
    };
    assert(transpose_spec(transpose_spec(s, rows, cols), cols, rows) =~= s);
}

/// A matrix with a single row or a single column transposes to itself.
pub proof fn lemma_transpose_identity<T>(s: Seq<T>, rows: int, cols: int)
    requires
        s.len() == rows * cols,
        rows >= 0,
        cols >= 0,
        rows <= 1 || cols <= 1,
    ensures
        transpose_spec(s, rows, cols) == s,
{
    assert forall|k: int| 0 <= k < s.len() implies transpose_spec(s, rows, cols)[k] == s[k] by {
        if rows <= 1 {
            assert(rows == 1) by (nonlinear_arith)
                requires
                    0 <= k < rows * cols,
                    0 <= rows <= 1,
            ;
            lemma_transpose_at(s, rows, cols, 0, k);
        } else {
            assert(cols == 1) by (nonlinear_arith)
                requires
                    0 <= k < rows * cols,
                    0 <= cols <= 1,
            ;
            lemma_transpose_at(s, rows, cols, k, 0);
        }
    };
    assert(transpose_spec(s, rows, cols) =~= s);
}

} // verus!
