//! Recursive Bayer threshold matrices for ordered dithering.
//!
//! A matrix of side `2n` is made from one of side `n`: each cell of the big
//! matrix takes four times the cell at the same place in the small one, plus
//! an offset that depends on the quadrant (`0` top left, `2` top right,
//! `3` bottom left, `1` bottom right).
use vstd::prelude::*;
use vstd::arithmetic::div_mod::{lemma_fundamental_div_mod_converse, lemma_fundamental_div_mod};

verus! {

/// The offset added in each quadrant of the doubled matrix.
pub open spec fn quadrant_offset(lower: bool, right: bool) -> int {
    if !lower && !right {
        0
    } else if !lower && right {
        2
    } else if lower && !right {
        3
    } else {
        1
    }
}

/// The cell at row `y`, column `x` of the matrix of side `2n` made from `prev`,
/// a row-major matrix of side `n`.
pub open spec fn bayer_cell(prev: Seq<int>, n: nat, y: int, x: int) -> int {
    4 * prev[(y % (n as int)) * n + x % (n as int)] + quadrant_offset(y >= n, x >= n)
}

/// The row-major matrix of side `2n` made from `prev`.
pub open spec fn bayer_step(prev: Seq<int>, n: nat) -> Seq<int> {
    Seq::new(4 * n * n, |k: int| bayer_cell(prev, n, k / (2 * n as int), k % (2 * n as int)))
}

/// The side of the matrix of the given level: `2^(level + 1)`.
pub open spec fn bayer_side(level: nat) -> nat
    decreases level,
{
    if level == 0 {
        2
    } else {
        2 * bayer_side((level - 1) as nat)
    }
}

/// The Bayer matrix of the given level, of side `bayer_side(level)`.
pub open spec fn bayer_matrix(level: nat) -> Seq<int>
    decreases level,
{
    if level == 0 {
        seq![0, 2, 3, 1]
    } else {
        bayer_step(bayer_matrix((level - 1) as nat), bayer_side((level - 1) as nat))
    }
}

/// `s` holds each of `0 .. m` exactly once.
pub open spec fn is_permutation(s: Seq<int>, m: nat) -> bool {
    &&& s.len() == m
    &&& forall|i: int| 0 <= i < s.len() ==> 0 <= #[trigger] s[i] < m
    &&& forall|i: int, j: int| 0 <= i < s.len() && 0 <= j < s.len() && i != j ==> s[i] != s[j]
}

pub open spec fn as_ints(s: Seq<u32>) -> Seq<int> {
    s.map_values(|v: u32| v as int)
}

proof fn lemma_row_major_index(y: int, x: int, w: int, h: int)
    by (nonlinear_arith)
    requires
        0 <= y < h,
        0 <= x < w,
    ensures
        0 <= y * w + x < h * w,
        y * w + x < (y + 1) * w,
{
}

proof fn lemma_mul_4nn(n: int)
    by (nonlinear_arith)
    requires
        n >= 0,
    ensures
        4 * n * n == (2 * n) * (2 * n),
        n * n <= 4 * n * n,
        n > 0 ==> 2 * n <= 4 * n * n,
{
}

/// The doubling step keeps the permutation property: from a matrix holding
/// each of `0 .. n*n` once it makes one holding each of `0 .. 4*n*n` once.
pub proof fn lemma_bayer_step_permutes(prev: Seq<int>, n: nat)
    requires
        is_permutation(prev, n * n),
    ensures
        is_permutation(bayer_step(prev, n), 4 * n * n),
{
    let s = bayer_step(prev, n);
    let w = 2 * n as int;
    let ni = n as int;
    lemma_mul_4nn(ni);
    if n == 0 {
        return;
    }
    assert forall|k: int| 0 <= k < s.len() implies 0 <= #[trigger] s[k] < 4 * n * n by {
        lemma_fundamental_div_mod(k, w);
        let y = k / w;
        let x = k % w;
        lemma_div_bound(k, w);
        lemma_cell_index(y, x, ni);
        let idx = (y % ni) * ni + x % ni;
        assert(0 <= prev[idx] < n * n);
        lemma_value_bound(prev[idx], quadrant_offset(y >= ni, x >= ni), ni);
    }
    assert forall|i: int, j: int| 0 <= i < s.len() && 0 <= j < s.len() && i != j implies s[i] != s[j] by {
        lemma_fundamental_div_mod(i, w);
        lemma_fundamental_div_mod(j, w);
        lemma_div_bound(i, w);
        lemma_div_bound(j, w);
        let (yi, xi) = (i / w, i % w);
        let (yj, xj) = (j / w, j % w);
        lemma_cell_index(yi, xi, ni);
        lemma_cell_index(yj, xj, ni);
        let ii = (yi % ni) * ni + xi % ni;
        let ij = (yj % ni) * ni + xj % ni;
        let oi = quadrant_offset(yi >= ni, xi >= ni);
        let oj = quadrant_offset(yj >= ni, xj >= ni);
        if s[i] == s[j] {
            lemma_four_split(prev[ii], oi, prev[ij], oj);
            assert(ii == ij);
            lemma_cell_unique(yi, xi, yj, xj, ni);
            assert(i == yi * w + xi);
            assert(j == yj * w + xj);
        }
    }
}

proof fn lemma_div_bound(k: int, w: int)
    by (nonlinear_arith)
    requires
        w > 0,
        0 <= k < w * w,
        k == w * (k / w) + k % w,
        0 <= k % w < w,
    ensures
        0 <= k / w < w,
{
}

proof fn lemma_cell_index(y: int, x: int, n: int)
    requires
        n > 0,
        0 <= y < 2 * n,
        0 <= x < 2 * n,
    ensures
        0 <= (y % n) * n + x % n < n * n,
        y % n == (if y >= n { y - n } else { y }),
        x % n == (if x >= n { x - n } else { x }),
{
    if y >= n {
        lemma_fundamental_div_mod_converse(y, n, 1, y - n);
    } else {
        lemma_fundamental_div_mod_converse(y, n, 0, y);
    }
    if x >= n {
        lemma_fundamental_div_mod_converse(x, n, 1, x - n);
    } else {
        lemma_fundamental_div_mod_converse(x, n, 0, x);
    }
    lemma_row_major_index(y % n, x % n, n, n);
}

proof fn lemma_value_bound(a: int, b: int, n: int)
    by (nonlinear_arith)
    requires
        0 <= a < n * n,
        0 <= b < 4,
    ensures
        0 <= 4 * a + b < 4 * n * n,
{
}

proof fn lemma_four_split(a1: int, b1: int, a2: int, b2: int)
    requires
        0 <= b1 < 4,
        0 <= b2 < 4,
        4 * a1 + b1 == 4 * a2 + b2,
    ensures
        a1 == a2,
        b1 == b2,
{
}

proof fn lemma_cell_unique(y1: int, x1: int, y2: int, x2: int, n: int)
    requires
        n > 0,
        0 <= y1 < 2 * n,
        0 <= x1 < 2 * n,
        0 <= y2 < 2 * n,
        0 <= x2 < 2 * n,
        (y1 % n) * n + x1 % n == (y2 % n) * n + x2 % n,
        quadrant_offset(y1 >= n, x1 >= n) == quadrant_offset(y2 >= n, x2 >= n),
    ensures
        y1 == y2,
        x1 == x2,
{
    lemma_cell_index(y1, x1, n);
    lemma_cell_index(y2, x2, n);
    let (a1, b1) = (y1 % n, x1 % n);
    let (a2, b2) = (y2 % n, x2 % n);
    lemma_fundamental_div_mod_converse(a1 * n + b1, n, a1, b1);
    lemma_fundamental_div_mod_converse(a2 * n + b2, n, a2, b2);
}

/// Every Bayer matrix holds each of `0 .. side*side` exactly once.
pub proof fn lemma_bayer_matrix_permutes(level: nat)
    ensures
        is_permutation(bayer_matrix(level), bayer_side(level) * bayer_side(level)),
    decreases level,
{
    if level == 0 {
        let m = bayer_matrix(0);
        assert(m =~= seq![0int, 2, 3, 1]);
        assert(m.len() == 4 && m[0] == 0 && m[1] == 2 && m[2] == 3 && m[3] == 1);
        assert(bayer_side(0) == 2);
        assert forall|i: int, j: int| 0 <= i < m.len() && 0 <= j < m.len() && i != j implies m[i] != m[j] by {
            assert(i == 0 || i == 1 || i == 2 || i == 3);
            assert(j == 0 || j == 1 || j == 2 || j == 3);
        }
    } else {
        let l = (level - 1) as nat;
        lemma_bayer_matrix_permutes(l);
        lemma_bayer_step_permutes(bayer_matrix(l), bayer_side(l));
        let n = bayer_side(l) as int;
        lemma_mul_4nn(n);
    }
}

/// Cell `(y, x)` of the doubled matrix, at row-major index `y * 2n + x`, is
/// four times cell `(y % n, x % n)` of the small one, plus `0` in the top left
/// quadrant, `2` in the top right, `3` in the bottom left and `1` in the
/// bottom right.
pub proof fn lemma_bayer_step_cells(prev: Seq<int>, n: nat)
    ensures
        forall|y: int, x: int|
            0 <= y < 2 * n && 0 <= x < 2 * n ==> #[trigger] bayer_step(prev, n)[y * (2 * n) + x] == 4
                * prev[(y % (n as int)) * n + x % (n as int)] + (if y < n {
                if x < n {
                    0int
                } else {
                    2int
                }
            } else {
                if x < n {
                    3int
                } else {
                    1int
                }
            }),
{
    assert forall|y: int, x: int| 0 <= y < 2 * n && 0 <= x < 2 * n implies #[trigger] bayer_step(prev, n)[y
        * (2 * n) + x] == 4 * prev[(y % (n as int)) * n + x % (n as int)] + (if y < n {
        if x < n {
            0int
        } else {
            2int
        }
    } else {
        if x < n {
            3int
        } else {
            1int
        }
    }) by {
        let w = 2 * n as int;
        lemma_row_major_index(y, x, w, w);
        lemma_mul_4nn(n as int);
        lemma_fundamental_div_mod_converse(y * w + x, w, y, x);
    }
}

/// The matrix of side `2n` made from `input`, a row-major matrix of side `n`:
/// the cell at row `y`, column `x` is `4 * input[(y % n) * n + x % n]` plus
/// the offset of its quadrant.
pub fn next_(n: usize, input: &[u32]) -> (output: Vec<u32>)
    requires
        input@.len() == n * n,
        4 * n * n <= usize::MAX,
        forall|i: int| 0 <= i < input@.len() ==> 4 * #[trigger] input@[i] + 3 <= u32::MAX,
    ensures
        as_ints(output@) == bayer_step(as_ints(input@), n as nat),
        output@.len() == 4 * n * n,
        forall|y: int, x: int|
            0 <= y < 2 * n && 0 <= x < 2 * n ==> #[trigger] output@[y * (2 * n) + x] == 4 * input@[(y
                % (n as int)) * n + x % (n as int)] + (if y < n {
                if x < n {
                    0int
                } else {
                    2int
                }
            } else {
                if x < n {
                    3int
                } else {
                    1int
                }
            }),
        is_permutation(as_ints(input@), (n * n) as nat) ==> is_permutation(
            as_ints(output@),
            (4 * n * n) as nat,
        ),
{
    let ghost prev = as_ints(input@);
    let ghost target = bayer_step(prev, n as nat);
    proof {
        lemma_mul_4nn(n as int);
    }
    let w: usize = n * 2;
    let base: [u32; 4] = [0, 2, 3, 1];
    let mut output: Vec<u32> = Vec::new();
    let mut y: usize = 0;
    while y != w
        invariant
            n > 0 ==> w <= 4 * n * n,
            w == 2 * n,
            y <= w,
            input@.len() == n * n,
            4 * n * n <= usize::MAX,
            4 * n * n == w * w,
            n * n <= 4 * n * n,
            forall|i: int| 0 <= i < input@.len() ==> 4 * #[trigger] input@[i] + 3 <= u32::MAX,
            prev == as_ints(input@),
            target == bayer_step(prev, n as nat),
            base@ == seq![0u32, 2, 3, 1],
            output@.len() == y * w,
            forall|k: int| 0 <= k < output@.len() ==> output@[k] as int == #[trigger] target[k],
        decreases w - y,
    {
        let mut x: usize = 0;
        while x != w
            invariant
                n > 0,
                w == 2 * n,
                y < w,
                x <= w,
                input@.len() == n * n,
                4 * n * n == w * w,
                n * n <= 4 * n * n,
                4 * n * n <= usize::MAX,
                forall|i: int| 0 <= i < input@.len() ==> 4 * #[trigger] input@[i] + 3 <= u32::MAX,
                prev == as_ints(input@),
                target == bayer_step(prev, n as nat),
                base@ == seq![0u32, 2, 3, 1],
                output@.len() == y * w + x,
                forall|k: int| 0 <= k < output@.len() ==> output@[k] as int == #[trigger] target[k],
            decreases w - x,
        {
            proof {
                lemma_cell_index(y as int, x as int, n as int);
                lemma_row_major_index(y as int, x as int, w as int, w as int);
            }
            let idx = (y % n) * n + (x % n);
            let q = (if y >= n { 1usize } else { 0usize }) * 2 + (if x >= n { 1usize } else { 0usize });
            let v = 4 * input[idx] + base[q];
            proof {
                let k = (y * w + x) as int;
                lemma_fundamental_div_mod_converse(k, w as int, y as int, x as int);
                assert(target[k] == bayer_cell(prev, n as nat, y as int, x as int));
                assert(v as int == bayer_cell(prev, n as nat, y as int, x as int));
            }
            output.push(v);
            x = x + 1;
        }
        proof {
            assert((y + 1) * w == y * w + w) by (nonlinear_arith);
        }
        y = y + 1;
    }
    proof {
        assert(as_ints(output@) =~= target);
        lemma_bayer_step_permutes_cond(prev, n as nat);
        lemma_bayer_step_cells(prev, n as nat);
        let w = 2 * n as int;
        assert forall|y: int, x: int| 0 <= y < 2 * n && 0 <= x < 2 * n implies #[trigger] output@[y * (2
            * n) + x] == 4 * input@[(y % (n as int)) * n + x % (n as int)] + (if y < n {
            if x < n {
                0int
            } else {
                2int
            }
        } else {
            if x < n {
                3int
            } else {
                1int
            }
        }) by {
            lemma_row_major_index(y, x, w, w);
            lemma_cell_index(y, x, n as int);
            let nn = n as nat;
            let k = y * (2 * nn) + x;
            assert(k == y * w + x);
            assert(bayer_step(prev, nn)[k] == 4 * prev[(y % (nn as int)) * nn + x % (nn as int)] + (if y < nn {
                if x < nn { 0int } else { 2int }
            } else {
                if x < nn { 3int } else { 1int }
            }));
            assert(as_ints(output@)[y * w + x] == output@[y * w + x] as int);
            assert(prev[(y % (n as int)) * n + x % (n as int)] == input@[(y % (n as int)) * n + x % (n as int)] as int);
        }
    }
    output
}

proof fn lemma_bayer_step_permutes_cond(prev: Seq<int>, n: nat)
    ensures
        is_permutation(prev, n * n) ==> is_permutation(bayer_step(prev, n), 4 * n * n),
{
    if is_permutation(prev, n * n) {
        lemma_bayer_step_permutes(prev, n);
    }
}

/// `n * n`.
pub open spec fn square(n: nat) -> nat {
    n * n
}

proof fn lemma_root_unique(s: int, t: int)
    by (nonlinear_arith)
    requires
        s >= 0,
        t >= 0,
        s * s <= t * t,
        t * t < (s + 1) * (s + 1),
    ensures
        s == t,
{
}

proof fn lemma_next_square_fits(s: int, len: int)
    by (nonlinear_arith)
    requires
        s >= 0,
        s * s <= len,
        4 * len <= usize::MAX,
    ensures
        (s + 1) * (s + 1) <= usize::MAX,
        s + 1 <= usize::MAX,
{
    assert(s + 1 <= (s + 1) * (s + 1));
    if s >= 1 {
        assert((s + 1) * (s + 1) <= 4 * (s * s));
    }
}

/// The matrix of double side made from `input`, a square row-major matrix
/// whose side is the square root of its length.
pub fn next(input: &[u32]) -> (output: Vec<u32>)
    requires
        exists|n: nat| #[trigger] square(n) == input@.len(),
        4 * input@.len() <= usize::MAX,
        forall|i: int| 0 <= i < input@.len() ==> 4 * #[trigger] input@[i] + 3 <= u32::MAX,
    ensures
        forall|n: nat| #[trigger] square(n) == input@.len() ==> as_ints(output@) == bayer_step(as_ints(input@), n),
        forall|n: nat|
            #[trigger] square(n) == input@.len() && is_permutation(as_ints(input@), n * n) ==> is_permutation(
                as_ints(output@),
                4 * n * n,
            ),
{
    let len = input.len();
    let mut s: usize = 0;
    proof {
        lemma_next_square_fits(0, len as int);
    }
    while (s + 1) * (s + 1) <= len
        invariant
            len == input@.len(),
            4 * len <= usize::MAX,
            s * s <= len,
            (s + 1) * (s + 1) <= usize::MAX,
            s + 1 <= usize::MAX,
        decreases len - s,
    {
        proof {
            assert(s + 1 <= (s + 1) * (s + 1)) by (nonlinear_arith);
        }
        s = s + 1;
        proof {
            lemma_next_square_fits(s as int, len as int);
        }
    }
    let ghost t = choose|n: nat| #[trigger] square(n) == input@.len();
    proof {
        lemma_root_unique(s as int, t as int);
        assert(s * s == len);
        assert(4 * s * s == 4 * (s * s)) by (nonlinear_arith);
    }
    let output = next_(s, input);
    proof {
        assert forall|n: nat| #[trigger] square(n) == input@.len() implies n == s by {
            lemma_root_unique(s as int, n as int);
        }
    }
    output
}

proof fn lemma_side_pow(level: nat)
    ensures
        bayer_side(level) == vstd::arithmetic::power2::pow2(level + 1),
    decreases level,
{
    vstd::arithmetic::power2::lemma_pow2_unfold(level + 1);
    if level > 0 {
        lemma_side_pow((level - 1) as nat);
    } else {
        vstd::arithmetic::power2::lemma_pow2_unfold(0 + 1);
        vstd::arithmetic::power2::lemma2_to64();
    }
}

proof fn lemma_side_small(level: nat)
    requires
        level <= 13,
    ensures
        bayer_side(level) <= 16384,
{
    lemma_side_pow(level);
    vstd::arithmetic::power2::lemma2_to64();
    if level < 13 {
        vstd::arithmetic::power2::lemma_pow2_strictly_increases(level + 1, 14);
    }
}

/// The row-major index, in a matrix of side `n` tiled over the image, of the
/// cell that lies under pixel `(x, y)`.
pub fn matrix_index(x: usize, y: usize, n: usize) -> (i: usize)
    requires
        n > 0,
        n * n <= usize::MAX,
    ensures
        i == (x % n) + (y % n) * n,
        i < n * n,
{
    proof {
        vstd::arithmetic::div_mod::lemma_mod_bound(x as int, n as int);
        vstd::arithmetic::div_mod::lemma_mod_bound(y as int, n as int);
        lemma_row_major_index((y % n) as int, (x % n) as int, n as int, n as int);
        assert((y % n) * n + (x % n) == (x % n) + (y % n) * n);
    }
    (x % n) + (y % n) * n
}

/// The Bayer matrix of the given level, row-major, of side `2^(level + 1)`.
pub fn bayer(level: u32) -> (m: Vec<u32>)
    requires
        level <= 14,
    ensures
        as_ints(m@) == bayer_matrix(level as nat),
        is_permutation(as_ints(m@), bayer_side(level as nat) * bayer_side(level as nat)),
{
    let mut m: Vec<u32> = vec![0, 2, 3, 1];
    let mut n: usize = 2;
    let mut l: u32 = 0;
    proof {
        assert(as_ints(m@) =~= bayer_matrix(0));
        lemma_bayer_matrix_permutes(0);
    }
    while l < level
        invariant
            l <= level <= 14,
            n == bayer_side(l as nat),
            as_ints(m@) == bayer_matrix(l as nat),
            is_permutation(as_ints(m@), bayer_side(l as nat) * bayer_side(l as nat)),
        decreases level - l,
    {
        proof {
            lemma_side_small(l as nat);
            lemma_mul_4nn(n as int);
            assert(4 * n * n <= 4 * 16384 * 16384) by (nonlinear_arith)
                requires n <= 16384;
            assert forall|i: int| 0 <= i < m@.len() implies 4 * #[trigger] m@[i] + 3 <= u32::MAX by {
                assert(as_ints(m@)[i] == m@[i] as int);
            }
        }
        let next_m = next_(n, &m);
        proof {
            lemma_bayer_matrix_permutes((l + 1) as nat);
        }
        m = next_m;
        n = n * 2;
        l = l + 1;
    }
    m
}

} // verus!
