//! The Hilbert curve walk that orders the pixels of Riemersma dithering.
//!
//! A walk of level `L` in direction `dir` starting at `s` visits the cells of a
//! square of side `2^L` one unit step at a time. Level `L` is made of four walks
//! of level `L - 1` joined by three unit steps; `plan(dir)` names them.
use vstd::prelude::*;

verus! {

/// A unit step on the pixel grid (`UP` decreases `y`).
#[derive(Clone, Copy, Debug, PartialEq, Eq)]
pub enum Dir {
    UP,
    DOWN,
    LEFT,
    RIGHT,
}

/// The cell one unit step from `p` in direction `d`.
pub open spec fn step(p: (int, int), d: Dir) -> (int, int) {
    match d {
        Dir::LEFT => (p.0 - 1, p.1),
        Dir::RIGHT => (p.0 + 1, p.1),
        Dir::UP => (p.0, p.1 - 1),
        Dir::DOWN => (p.0, p.1 + 1),
    }
}

/// The four sub-walk directions and the three joining steps of a walk in
/// direction `d`: `(walk, step, walk, step, walk, step, walk)`.
pub open spec fn plan(d: Dir) -> (Dir, Dir, Dir, Dir, Dir, Dir, Dir) {
    match d {
        Dir::LEFT => (Dir::UP, Dir::RIGHT, Dir::LEFT, Dir::DOWN, Dir::LEFT, Dir::LEFT, Dir::DOWN),
        Dir::RIGHT => (Dir::DOWN, Dir::LEFT, Dir::RIGHT, Dir::UP, Dir::RIGHT, Dir::RIGHT, Dir::UP),
        Dir::UP => (Dir::LEFT, Dir::DOWN, Dir::UP, Dir::RIGHT, Dir::UP, Dir::UP, Dir::RIGHT),
        Dir::DOWN => (Dir::RIGHT, Dir::UP, Dir::DOWN, Dir::LEFT, Dir::DOWN, Dir::DOWN, Dir::LEFT),
    }
}

/// `2^level`, the side of the square a walk of that level covers.
pub open spec fn side(level: nat) -> nat
    decreases level,
{
    if level == 0 {
        1
    } else {
        2 * side((level - 1) as nat)
    }
}

/// The cells of the walk of `level` in direction `d` from `s`, in order,
/// the last cell included.
pub open spec fn hilbert_path(level: nat, d: Dir, s: (int, int)) -> Seq<(int, int)>
    decreases level,
{
    if level == 0 {
        seq![s]
    } else {
        let l = (level - 1) as nat;
        let p = plan(d);
        let p1 = hilbert_path(l, p.0, s);
        let p2 = hilbert_path(l, p.2, step(p1.last(), p.1));
        let p3 = hilbert_path(l, p.4, step(p2.last(), p.3));
        let p4 = hilbert_path(l, p.6, step(p3.last(), p.5));
        p1 + p2 + p3 + p4
    }
}

/// The corner with the least coordinates of the square covered by a walk
/// of side `n` in direction `d` from `s`.
pub open spec fn corner(d: Dir, s: (int, int), n: int) -> (int, int) {
    match d {
        Dir::UP | Dir::LEFT => s,
        Dir::RIGHT | Dir::DOWN => (s.0 - (n - 1), s.1 - (n - 1)),
    }
}

/// Where a walk of side `n` in direction `d` from `s` ends.
pub open spec fn walk_end(d: Dir, s: (int, int), n: int) -> (int, int) {
    match d {
        Dir::UP => (s.0 + (n - 1), s.1),
        Dir::LEFT => (s.0, s.1 + (n - 1)),
        Dir::RIGHT => (s.0, s.1 - (n - 1)),
        Dir::DOWN => (s.0 - (n - 1), s.1),
    }
}

/// `p` lies in the square of side `n` whose least corner is `c`.
pub open spec fn in_square(p: (int, int), c: (int, int), n: int) -> bool {
    c.0 <= p.0 < c.0 + n && c.1 <= p.1 < c.1 + n
}

proof fn lemma_side_pos(level: nat)
    ensures
        side(level) >= 1,
    decreases level,
{
    if level > 0 {
        lemma_side_pos((level - 1) as nat);
    }
}

proof fn lemma_square(n: int)
    by (nonlinear_arith)
    requires
        n >= 1,
    ensures
        (2 * n) * (2 * n) == 4 * (n * n),
        n * n >= 1,
{
}

/// Length, first and last cell of a walk, and the square that holds it.
#[verifier::spinoff_prover]
#[verifier::rlimit(40)]
pub proof fn lemma_path_shape(level: nat, d: Dir, s: (int, int))
    ensures
        hilbert_path(level, d, s).len() == side(level) * side(level),
        hilbert_path(level, d, s)[0] == s,
        hilbert_path(level, d, s).last() == walk_end(d, s, side(level) as int),
        forall|i: int|
            0 <= i < hilbert_path(level, d, s).len() ==> in_square(
                #[trigger] hilbert_path(level, d, s)[i],
                corner(d, s, side(level) as int),
                side(level) as int,
            ),
    decreases level,
{
    lemma_side_pos(level);
    if level > 0 {
        let l = (level - 1) as nat;
        let h = side(l) as int;
        lemma_side_pos(l);
        lemma_square(h);
        let p = plan(d);
        let s1 = s;
        lemma_path_shape(l, p.0, s1);
        let p1 = hilbert_path(l, p.0, s1);
        let s2 = step(p1.last(), p.1);
        lemma_path_shape(l, p.2, s2);
        let p2 = hilbert_path(l, p.2, s2);
        let s3 = step(p2.last(), p.3);
        lemma_path_shape(l, p.4, s3);
        let p3 = hilbert_path(l, p.4, s3);
        let s4 = step(p3.last(), p.5);
        lemma_path_shape(l, p.6, s4);
        let p4 = hilbert_path(l, p.6, s4);
        let path = hilbert_path(level, d, s);
        assert(path == p1 + p2 + p3 + p4);
        let q = h * h;
        let c = corner(d, s, 2 * h);
        assert forall|i: int| 0 <= i < path.len() implies in_square(
            #[trigger] path[i],
            c,
            2 * h,
        ) by {
            if i < q {
                assert(path[i] == p1[i]);
                assert(in_square(p1[i], corner(p.0, s1, h), h));
            } else if i < 2 * q {
                assert(path[i] == p2[i - q]);
                assert(in_square(p2[i - q], corner(p.2, s2, h), h));
            } else if i < 3 * q {
                assert(path[i] == p3[i - 2 * q]);
                assert(in_square(p3[i - 2 * q], corner(p.4, s3, h), h));
            } else {
                assert(path[i] == p4[i - 3 * q]);
                assert(in_square(p4[i - 3 * q], corner(p.6, s4, h), h));
            }
        }
        assert(path.last() == p4.last());
    }
}

/// Squares of side `n` with least corners `a` and `b` share no cell.
pub open spec fn apart(a: (int, int), b: (int, int), n: int) -> bool {
    a.0 + n <= b.0 || b.0 + n <= a.0 || a.1 + n <= b.1 || b.1 + n <= a.1
}

/// The start cells of the four sub-walks of a walk of `level >= 1`.
pub open spec fn sub_starts(level: nat, d: Dir, s: (int, int)) -> ((int, int), (int, int), (int, int), (int, int)) {
    let l = (level - 1) as nat;
    let p = plan(d);
    let p1 = hilbert_path(l, p.0, s);
    let s2 = step(p1.last(), p.1);
    let p2 = hilbert_path(l, p.2, s2);
    let s3 = step(p2.last(), p.3);
    let p3 = hilbert_path(l, p.4, s3);
    let s4 = step(p3.last(), p.5);
    (s, s2, s3, s4)
}

/// The four sub-walks of a walk lie in the four quadrants of its square.
#[verifier::spinoff_prover]
#[verifier::rlimit(40)]
proof fn lemma_quadrants(level: nat, d: Dir, s: (int, int))
    requires
        level >= 1,
    ensures
        ({
            let l = (level - 1) as nat;
            let h = side(l) as int;
            let p = plan(d);
            let st = sub_starts(level, d, s);
            let c = corner(d, s, 2 * h);
            let c1 = corner(p.0, st.0, h);
            let c2 = corner(p.2, st.1, h);
            let c3 = corner(p.4, st.2, h);
            let c4 = corner(p.6, st.3, h);
            &&& h >= 1
            &&& side(level) == 2 * h
            &&& in_square(c1, c, 2 * h) && c1.0 + h <= c.0 + 2 * h && c1.1 + h <= c.1 + 2 * h
            &&& in_square(c2, c, 2 * h) && c2.0 + h <= c.0 + 2 * h && c2.1 + h <= c.1 + 2 * h
            &&& in_square(c3, c, 2 * h) && c3.0 + h <= c.0 + 2 * h && c3.1 + h <= c.1 + 2 * h
            &&& in_square(c4, c, 2 * h) && c4.0 + h <= c.0 + 2 * h && c4.1 + h <= c.1 + 2 * h
            &&& apart(c1, c2, h) && apart(c1, c3, h) && apart(c1, c4, h)
            &&& apart(c2, c3, h) && apart(c2, c4, h) && apart(c3, c4, h)
            &&& forall|q: (int, int)| in_square(q, c, 2 * h) ==>
                in_square(q, c1, h) || in_square(q, c2, h) || in_square(q, c3, h) || in_square(q, c4, h)
        }),
{
    let l = (level - 1) as nat;
    let h = side(l) as int;
    lemma_side_pos(l);
    let p = plan(d);
    lemma_path_shape(l, p.0, s);
    let p1 = hilbert_path(l, p.0, s);
    let s2 = step(p1.last(), p.1);
    lemma_path_shape(l, p.2, s2);
    let p2 = hilbert_path(l, p.2, s2);
    let s3 = step(p2.last(), p.3);
    lemma_path_shape(l, p.4, s3);
    let p3 = hilbert_path(l, p.4, s3);
    let s4 = step(p3.last(), p.5);
}

proof fn lemma_not_both(q: (int, int), a: (int, int), b: (int, int), n: int)
    requires
        apart(a, b, n),
    ensures
        !(in_square(q, a, n) && in_square(q, b, n)),
{
}

/// A walk never visits a cell twice.
#[verifier::spinoff_prover]
#[verifier::rlimit(40)]
pub proof fn lemma_path_distinct(level: nat, d: Dir, s: (int, int))
    ensures
        forall|i: int, j: int|
            0 <= i < hilbert_path(level, d, s).len() && 0 <= j < hilbert_path(level, d, s).len()
                && i != j ==> hilbert_path(level, d, s)[i] != hilbert_path(level, d, s)[j],
    decreases level,
{
    if level > 0 {
        let l = (level - 1) as nat;
        let h = side(l) as int;
        lemma_side_pos(l);
        lemma_square(h);
        lemma_quadrants(level, d, s);
        let p = plan(d);
        let st = sub_starts(level, d, s);
        let p1 = hilbert_path(l, p.0, st.0);
        let p2 = hilbert_path(l, p.2, st.1);
        let p3 = hilbert_path(l, p.4, st.2);
        let p4 = hilbert_path(l, p.6, st.3);
        lemma_path_shape(l, p.0, st.0);
        lemma_path_shape(l, p.2, st.1);
        lemma_path_shape(l, p.4, st.2);
        lemma_path_shape(l, p.6, st.3);
        lemma_path_distinct(l, p.0, st.0);
        lemma_path_distinct(l, p.2, st.1);
        lemma_path_distinct(l, p.4, st.2);
        lemma_path_distinct(l, p.6, st.3);
        let cs = seq![corner(p.0, st.0, h), corner(p.2, st.1, h), corner(p.4, st.2, h), corner(p.6, st.3, h)];
        let ps = seq![p1, p2, p3, p4];
        let path = hilbert_path(level, d, s);
        assert(path == p1 + p2 + p3 + p4);
        let q = h * h;
        assert forall|k: int, i: int| 0 <= k < 4 && 0 <= i < q implies
            #[trigger] path[k * q + i] == ps[k][i] && in_square(ps[k][i], cs[k], h) by {
            if k == 0 {
                assert(path[i] == p1[i]);
            } else if k == 1 {
                assert(path[q + i] == p2[i]);
            } else if k == 2 {
                assert(path[2 * q + i] == p3[i]);
            } else {
                assert(path[3 * q + i] == p4[i]);
            }
        }
        assert forall|i: int, j: int|
            0 <= i < path.len() && 0 <= j < path.len() && i != j implies path[i] != path[j] by {
            let ki = if i < q { 0int } else if i < 2 * q { 1int } else if i < 3 * q { 2int } else { 3int };
            let kj = if j < q { 0int } else if j < 2 * q { 1int } else if j < 3 * q { 2int } else { 3int };
            let ii = i - ki * q;
            let jj = j - kj * q;
            assert(path[ki * q + ii] == ps[ki][ii]);
            assert(path[kj * q + jj] == ps[kj][jj]);
            if ki != kj {
                lemma_not_both(path[i], cs[ki], cs[kj], h);
            }
        }
    }
}

/// A walk visits every cell of its square.
#[verifier::spinoff_prover]
#[verifier::rlimit(40)]
pub proof fn lemma_path_covers(level: nat, d: Dir, s: (int, int), q: (int, int))
    requires
        in_square(q, corner(d, s, side(level) as int), side(level) as int),
    ensures
        exists|i: int| 0 <= i < hilbert_path(level, d, s).len() && #[trigger] hilbert_path(level, d, s)[i] == q,
    decreases level,
{
    let path = hilbert_path(level, d, s);
    lemma_path_shape(level, d, s);
    if level == 0 {
        assert(path[0] == q);
    } else {
        let l = (level - 1) as nat;
        let h = side(l) as int;
        lemma_side_pos(l);
        lemma_square(h);
        lemma_quadrants(level, d, s);
        let p = plan(d);
        let st = sub_starts(level, d, s);
        let p1 = hilbert_path(l, p.0, st.0);
        let p2 = hilbert_path(l, p.2, st.1);
        let p3 = hilbert_path(l, p.4, st.2);
        let p4 = hilbert_path(l, p.6, st.3);
        lemma_path_shape(l, p.0, st.0);
        lemma_path_shape(l, p.2, st.1);
        lemma_path_shape(l, p.4, st.2);
        lemma_path_shape(l, p.6, st.3);
        assert(path == p1 + p2 + p3 + p4);
        let n = h * h;
        if in_square(q, corner(p.0, st.0, h), h) {
            lemma_path_covers(l, p.0, st.0, q);
            let i = choose|i: int| 0 <= i < p1.len() && #[trigger] p1[i] == q;
            assert(path[i] == q);
        } else if in_square(q, corner(p.2, st.1, h), h) {
            lemma_path_covers(l, p.2, st.1, q);
            let i = choose|i: int| 0 <= i < p2.len() && #[trigger] p2[i] == q;
            assert(path[n + i] == q);
        } else if in_square(q, corner(p.4, st.2, h), h) {
            lemma_path_covers(l, p.4, st.2, q);
            let i = choose|i: int| 0 <= i < p3.len() && #[trigger] p3[i] == q;
            assert(path[2 * n + i] == q);
        } else {
            lemma_path_covers(l, p.6, st.3, q);
            let i = choose|i: int| 0 <= i < p4.len() && #[trigger] p4[i] == q;
            assert(path[3 * n + i] == q);
        }
    }
}

/// `a` and `b` are one unit step apart.
pub open spec fn adjacent(a: (int, int), b: (int, int)) -> bool {
    (a.0 == b.0 && (a.1 - b.1 == 1 || b.1 - a.1 == 1)) || (a.1 == b.1 && (a.0 - b.0 == 1 || b.0 - a.0 == 1))
}

proof fn lemma_step_adjacent(p: (int, int), d: Dir)
    ensures
        adjacent(p, step(p, d)),
{
}

/// Each cell of a walk is one unit step from the next.
#[verifier::spinoff_prover]
#[verifier::rlimit(40)]
pub proof fn lemma_path_steps(level: nat, d: Dir, s: (int, int))
    ensures
        forall|i: int|
            0 <= i < hilbert_path(level, d, s).len() - 1 ==> adjacent(
                #[trigger] hilbert_path(level, d, s)[i],
                hilbert_path(level, d, s)[i + 1],
            ),
    decreases level,
{
    if level > 0 {
        let l = (level - 1) as nat;
        let h = side(l) as int;
        lemma_side_pos(l);
        lemma_square(h);
        let p = plan(d);
        let st = sub_starts(level, d, s);
        let p1 = hilbert_path(l, p.0, st.0);
        let p2 = hilbert_path(l, p.2, st.1);
        let p3 = hilbert_path(l, p.4, st.2);
        let p4 = hilbert_path(l, p.6, st.3);
        lemma_path_shape(l, p.0, st.0);
        lemma_path_shape(l, p.2, st.1);
        lemma_path_shape(l, p.4, st.2);
        lemma_path_shape(l, p.6, st.3);
        lemma_path_steps(l, p.0, st.0);
        lemma_path_steps(l, p.2, st.1);
        lemma_path_steps(l, p.4, st.2);
        lemma_path_steps(l, p.6, st.3);
        lemma_step_adjacent(p1.last(), p.1);
        lemma_step_adjacent(p2.last(), p.3);
        lemma_step_adjacent(p3.last(), p.5);
        let path = hilbert_path(level, d, s);
        assert(path == p1 + p2 + p3 + p4);
        let q = h * h;
        assert forall|i: int| 0 <= i < path.len() - 1 implies adjacent(#[trigger] path[i], path[i + 1]) by {
            if i < q - 1 {
                assert(path[i] == p1[i] && path[i + 1] == p1[i + 1]);
            } else if i == q - 1 {
                assert(path[i] == p1[q - 1] && path[i + 1] == p2[0]);
            } else if i < 2 * q - 1 {
                assert(path[i] == p2[i - q] && path[i + 1] == p2[i - q + 1]);
            } else if i == 2 * q - 1 {
                assert(path[i] == p2[q - 1] && path[i + 1] == p3[0]);
            } else if i < 3 * q - 1 {
                assert(path[i] == p3[i - 2 * q] && path[i + 1] == p3[i - 2 * q + 1]);
            } else if i == 3 * q - 1 {
                assert(path[i] == p3[q - 1] && path[i + 1] == p4[0]);
            } else {
                assert(path[i] == p4[i - 3 * q] && path[i + 1] == p4[i - 3 * q + 1]);
            }
        }
    }
}

/// `p` is a pixel of an image of `w` columns and `h` rows.
pub open spec fn on_image(p: (int, int), w: int, h: int) -> bool {
    0 <= p.0 < w && 0 <= p.1 < h
}

/// The cells of `s` that are pixels of a `w` by `h` image, in order.
pub open spec fn visible(s: Seq<(int, int)>, w: int, h: int) -> Seq<(u32, u32)>
    decreases s.len(),
{
    if s.len() == 0 {
        Seq::empty()
    } else {
        let r = visible(s.drop_last(), w, h);
        let p = s.last();
        if on_image(p, w, h) {
            r.push((p.0 as u32, p.1 as u32))
        } else {
            r
        }
    }
}

proof fn lemma_visible_add(a: Seq<(int, int)>, b: Seq<(int, int)>, w: int, h: int)
    ensures
        visible(a + b, w, h) == visible(a, w, h) + visible(b, w, h),
    decreases b.len(),
{
    if b.len() == 0 {
        assert(a + b =~= a);
        assert(visible(a, w, h) + visible(b, w, h) =~= visible(a, w, h));
    } else {
        assert((a + b).drop_last() =~= a + b.drop_last());
        lemma_visible_add(a, b.drop_last(), w, h);
        assert((a + b).last() == b.last());
        let va = visible(a, w, h);
        let vb = visible(b.drop_last(), w, h);
        let p = b.last();
        if on_image(p, w, h) {
            assert(va + vb.push((p.0 as u32, p.1 as u32)) =~= (va + vb).push((p.0 as u32, p.1 as u32)));
        }
    }
}

proof fn lemma_split_last(a: Seq<(int, int)>, w: int, h: int)
    requires
        a.len() >= 1,
    ensures
        visible(a, w, h) == visible(a.drop_last(), w, h) + visible(seq![a.last()], w, h),
{
    assert(a =~= a.drop_last() + seq![a.last()]);
    lemma_visible_add(a.drop_last(), seq![a.last()], w, h);
}

pub open spec fn ipos(p: (i64, i64)) -> (int, int) {
    (p.0 as int, p.1 as int)
}

/// The square of side `n` with least corner `c` lies in `[0, 2^32)`.
pub open spec fn fits(c: (int, int), n: int) -> bool {
    0 <= c.0 && c.0 + n <= 0x1_0000_0000 && 0 <= c.1 && c.1 + n <= 0x1_0000_0000
}

fn plan_of(d: Dir) -> (r: (Dir, Dir, Dir, Dir, Dir, Dir, Dir))
    ensures
        r == plan(d),
{
    match d {
        Dir::LEFT => (Dir::UP, Dir::RIGHT, Dir::LEFT, Dir::DOWN, Dir::LEFT, Dir::LEFT, Dir::DOWN),
        Dir::RIGHT => (Dir::DOWN, Dir::LEFT, Dir::RIGHT, Dir::UP, Dir::RIGHT, Dir::RIGHT, Dir::UP),
        Dir::UP => (Dir::LEFT, Dir::DOWN, Dir::UP, Dir::RIGHT, Dir::UP, Dir::UP, Dir::RIGHT),
        Dir::DOWN => (Dir::RIGHT, Dir::UP, Dir::DOWN, Dir::LEFT, Dir::DOWN, Dir::DOWN, Dir::LEFT),
    }
}

/// Visits the cell at `pos`: records it when it is a pixel of the image.
fn visit(pos: &(i64, i64), w: i64, h: i64, out: &mut Vec<(u32, u32)>)
    requires
        0 <= w <= i32::MAX,
        0 <= h <= i32::MAX,
    ensures
        final(out)@ == old(out)@ + visible(seq![ipos(*pos)], w as int, h as int),
{
    let ghost p = ipos(*pos);
    proof {
        reveal_with_fuel(visible, 2);
        assert(seq![p].drop_last() =~= Seq::<(int, int)>::empty());
    }
    if pos.0 >= 0 && pos.0 < w && pos.1 >= 0 && pos.1 < h {
        out.push((pos.0 as u32, pos.1 as u32));
        proof {
            assert(visible(seq![p], w as int, h as int) =~= seq![(p.0 as u32, p.1 as u32)]);
        }
    } else {
        proof {
            assert(visible(seq![p], w as int, h as int) =~= Seq::<(u32, u32)>::empty());
            assert(out@ =~= out@ + Seq::<(u32, u32)>::empty());
        }
    }
}

/// Visits the cell at `pos`, then steps in direction `d`.
fn mv(pos: &mut (i64, i64), d: Dir, w: i64, h: i64, out: &mut Vec<(u32, u32)>)
    requires
        0 <= w <= i32::MAX,
        0 <= h <= i32::MAX,
        -0x2_0000_0000 <= old(pos).0 <= 0x2_0000_0000,
        -0x2_0000_0000 <= old(pos).1 <= 0x2_0000_0000,
    ensures
        ipos(*final(pos)) == step(ipos(*old(pos)), d),
        final(out)@ == old(out)@ + visible(seq![ipos(*old(pos))], w as int, h as int),
{
    visit(pos, w, h, out);
    match d {
        Dir::LEFT => pos.0 = pos.0 - 1,
        Dir::RIGHT => pos.0 = pos.0 + 1,
        Dir::UP => pos.1 = pos.1 - 1,
        Dir::DOWN => pos.1 = pos.1 + 1,
    }
}

/// The four sub-walks of a walk, with the facts that chain them.
#[verifier::spinoff_prover]
#[verifier::rlimit(40)]
proof fn lemma_sub_walks(level: nat, d: Dir, s: (int, int), w: int, h: int)
    requires
        level >= 2,
        fits(corner(d, s, side(level) as int), side(level) as int),
    ensures
        ({
            let l = (level - 1) as nat;
            let n = side(l) as int;
            let p = plan(d);
            let st = sub_starts(level, d, s);
            let p1 = hilbert_path(l, p.0, st.0);
            let p2 = hilbert_path(l, p.2, st.1);
            let p3 = hilbert_path(l, p.4, st.2);
            let p4 = hilbert_path(l, p.6, st.3);
            &&& st.0 == s
            &&& st.1 == step(p1.last(), p.1)
            &&& st.2 == step(p2.last(), p.3)
            &&& st.3 == step(p3.last(), p.5)
            &&& fits(corner(p.0, st.0, n), n)
            &&& fits(corner(p.2, st.1, n), n)
            &&& fits(corner(p.4, st.2, n), n)
            &&& fits(corner(p.6, st.3, n), n)
            &&& 0 <= p1.last().0 <= 0x1_0000_0000 && 0 <= p1.last().1 <= 0x1_0000_0000
            &&& 0 <= p2.last().0 <= 0x1_0000_0000 && 0 <= p2.last().1 <= 0x1_0000_0000
            &&& 0 <= p3.last().0 <= 0x1_0000_0000 && 0 <= p3.last().1 <= 0x1_0000_0000
            &&& hilbert_path(level, d, s).last() == p4.last()
            &&& visible(hilbert_path(level, d, s).drop_last(), w, h) == visible(p1.drop_last(), w, h)
                + visible(seq![p1.last()], w, h) + visible(p2.drop_last(), w, h) + visible(
                seq![p2.last()],
                w,
                h,
            ) + visible(p3.drop_last(), w, h) + visible(seq![p3.last()], w, h) + visible(
                p4.drop_last(),
                w,
                h,
            )
        }),
{
    let l = (level - 1) as nat;
    let n = side(l) as int;
    let p = plan(d);
    let st = sub_starts(level, d, s);
    let p1 = hilbert_path(l, p.0, st.0);
    let p2 = hilbert_path(l, p.2, st.1);
    let p3 = hilbert_path(l, p.4, st.2);
    let p4 = hilbert_path(l, p.6, st.3);
    let path = hilbert_path(level, d, s);
    lemma_quadrants(level, d, s);
    lemma_path_shape(l, p.0, st.0);
    lemma_path_shape(l, p.2, st.1);
    lemma_path_shape(l, p.4, st.2);
    lemma_path_shape(l, p.6, st.3);
    lemma_side_pos(l);
    lemma_square(n);
    assert(path == p1 + p2 + p3 + p4);
    assert(in_square(p1[p1.len() - 1], corner(p.0, st.0, n), n));
    assert(in_square(p2[p2.len() - 1], corner(p.2, st.1, n), n));
    assert(in_square(p3[p3.len() - 1], corner(p.4, st.2, n), n));
    lemma_split_last(p1, w, h);
    lemma_split_last(p2, w, h);
    lemma_split_last(p3, w, h);
    assert(path.drop_last() =~= p1 + p2 + p3 + p4.drop_last());
    lemma_visible_add(p1 + p2 + p3, p4.drop_last(), w, h);
    lemma_visible_add(p1 + p2, p3, w, h);
    lemma_visible_add(p1, p2, w, h);
    let v1 = visible(p1.drop_last(), w, h);
    let e1 = visible(seq![p1.last()], w, h);
    let v2 = visible(p2.drop_last(), w, h);
    let e2 = visible(seq![p2.last()], w, h);
    let v3 = visible(p3.drop_last(), w, h);
    let e3 = visible(seq![p3.last()], w, h);
    let v4 = visible(p4.drop_last(), w, h);
    assert(v1 + e1 + (v2 + e2) + (v3 + e3) + v4 =~= v1 + e1 + v2 + e2 + v3 + e3 + v4);
}

/// The walk of level one: three steps.
#[verifier::spinoff_prover]
#[verifier::rlimit(40)]
fn walk_base(d: Dir, pos: &mut (i64, i64), w: i64, h: i64, out: &mut Vec<(u32, u32)>)
    requires
        0 <= w <= i32::MAX,
        0 <= h <= i32::MAX,
        fits(corner(d, ipos(*old(pos)), 2), 2),
    ensures
        ipos(*final(pos)) == hilbert_path(1, d, ipos(*old(pos))).last(),
        final(out)@ == old(out)@ + visible(
            hilbert_path(1, d, ipos(*old(pos))).drop_last(),
            w as int,
            h as int,
        ),
{
    let ghost s = ipos(*pos);
    let ghost out0 = out@;
    let ghost path = hilbert_path(1, d, s);
    let ghost p = plan(d);
    let ghost (s1, s2, s3) = (step(s, p.1), step(step(s, p.1), p.3), step(step(step(s, p.1), p.3), p.5));
    proof {
        reveal_with_fuel(hilbert_path, 2);
        assert(path =~= seq![s, s1, s2, s3]);
        assert(path.drop_last() =~= seq![s] + seq![s1] + seq![s2]);
        lemma_visible_add(seq![s] + seq![s1], seq![s2], w as int, h as int);
        lemma_visible_add(seq![s], seq![s1], w as int, h as int);
    }
    match d {
        Dir::LEFT => {
            mv(pos, Dir::RIGHT, w, h, out);
            mv(pos, Dir::DOWN, w, h, out);
            mv(pos, Dir::LEFT, w, h, out);
        },
        Dir::RIGHT => {
            mv(pos, Dir::LEFT, w, h, out);
            mv(pos, Dir::UP, w, h, out);
            mv(pos, Dir::RIGHT, w, h, out);
        },
        Dir::UP => {
            mv(pos, Dir::DOWN, w, h, out);
            mv(pos, Dir::RIGHT, w, h, out);
            mv(pos, Dir::UP, w, h, out);
        },
        Dir::DOWN => {
            mv(pos, Dir::UP, w, h, out);
            mv(pos, Dir::LEFT, w, h, out);
            mv(pos, Dir::DOWN, w, h, out);
        },
    }
    proof {
        assert(out@ =~= out0 + visible(path.drop_last(), w as int, h as int));
    }
}

/// Walks the curve of `level` in direction `d` from `pos`, recording the
/// pixels of a `w` by `h` image that it visits; the last cell is reached and left
/// for the caller to visit.
#[verifier::spinoff_prover]
#[verifier::rlimit(60)]
fn walk(level: u32, d: Dir, pos: &mut (i64, i64), w: i64, h: i64, out: &mut Vec<(u32, u32)>)
    requires
        1 <= level <= 32,
        0 <= w <= i32::MAX,
        0 <= h <= i32::MAX,
        fits(corner(d, ipos(*old(pos)), side(level as nat) as int), side(level as nat) as int),
    ensures
        ipos(*final(pos)) == hilbert_path(level as nat, d, ipos(*old(pos))).last(),
        final(out)@ == old(out)@ + visible(
            hilbert_path(level as nat, d, ipos(*old(pos))).drop_last(),
            w as int,
            h as int,
        ),
    decreases level,
{
    if level == 1 {
        proof {
            assert(side(1) == 2) by {
                reveal_with_fuel(side, 2);
            }
        }
        walk_base(d, pos, w, h, out);
    } else {
        let ghost s = ipos(*pos);
        let ghost out0 = out@;
        let ghost l = (level - 1) as nat;
        let ghost st = sub_starts(level as nat, d, s);
        let ghost p = plan(d);
        let ghost p1 = hilbert_path(l, p.0, st.0);
        let ghost p2 = hilbert_path(l, p.2, st.1);
        let ghost p3 = hilbert_path(l, p.4, st.2);
        let ghost p4 = hilbert_path(l, p.6, st.3);
        proof {
            lemma_sub_walks(level as nat, d, s, w as int, h as int);
        }
        let (a1, b1, a2, b2, a3, b3, a4) = plan_of(d);
        walk(level - 1, a1, pos, w, h, out);
        mv(pos, b1, w, h, out);
        walk(level - 1, a2, pos, w, h, out);
        mv(pos, b2, w, h, out);
        walk(level - 1, a3, pos, w, h, out);
        mv(pos, b3, w, h, out);
        walk(level - 1, a4, pos, w, h, out);
        proof {
            let (wi, hi) = (w as int, h as int);
            assert(out@ =~= out0 + (visible(p1.drop_last(), wi, hi) + visible(seq![p1.last()], wi, hi)
                + visible(p2.drop_last(), wi, hi) + visible(seq![p2.last()], wi, hi) + visible(
                p3.drop_last(),
                wi,
                hi,
            ) + visible(seq![p3.last()], wi, hi) + visible(p4.drop_last(), wi, hi)));
        }
    }
}

/// Level `l` is the least whose square of side `2^l` has room for `m` cells
/// along a side.
pub open spec fn covers_level(l: nat, m: nat) -> bool {
    m <= side(l) && (l == 0 || side((l - 1) as nat) < m)
}

/// The level of the walk over an image whose larger side is `m`.
pub open spec fn walk_level(m: nat) -> nat {
    choose|l: nat| covers_level(l, m)
}

proof fn lemma_side_monotone(a: nat, b: nat)
    requires
        a <= b,
    ensures
        side(a) <= side(b),
    decreases b,
{
    if a < b {
        lemma_side_monotone(a, (b - 1) as nat);
        lemma_side_pos((b - 1) as nat);
    }
}

proof fn lemma_level_unique(l: nat, m: nat)
    requires
        covers_level(l, m),
    ensures
        walk_level(m) == l,
{
    let k = walk_level(m);
    assert(covers_level(k, m));
    if k < l {
        lemma_side_monotone(k, (l - 1) as nat);
    } else if l < k {
        lemma_side_monotone(l, (k - 1) as nat);
    }
}

pub open spec fn larger(a: u32, b: u32) -> nat {
    if a >= b {
        a as nat
    } else {
        b as nat
    }
}

/// The level of the Hilbert walk over a `width` by `height` image: the least
/// `level` with `2^level` at least the larger side.
pub fn hilbert_level(width: u32, height: u32) -> (level: u32)
    requires
        width >= 1 || height >= 1,
    ensures
        level == walk_level(larger(width, height)),
        covers_level(level as nat, larger(width, height)),
        level <= 32,
{
    let m: u64 = if width >= height { width as u64 } else { height as u64 };
    let mut p: u64 = 1;
    let mut level: u32 = 0;
    while p < m
        invariant
            m == larger(width, height),
            1 <= m <= u32::MAX,
            p == side(level as nat),
            level == 0 || side((level - 1) as nat) < m,
            p <= 2 * m,
            level <= 32,
            p >= 1,
        decreases 32 - level,
    {
        proof {
            lemma_side_pos(level as nat);
            if level >= 32 {
                assert(side(32) == 0x1_0000_0000) by {
                    reveal_with_fuel(side, 33);
                }
            }
        }
        p = p * 2;
        level = level + 1;
    }
    proof {
        lemma_level_unique(level as nat, m as nat);
    }
    level
}

/// The pixels of a `width` by `height` image in the order Riemersma dithering
/// visits them.
pub open spec fn riemersma_order_spec(width: u32, height: u32) -> Seq<(u32, u32)> {
    visible(
        hilbert_path(walk_level(larger(width, height)), Dir::UP, (0, 0)),
        width as int,
        height as int,
    )
}

/// The order in which Riemersma dithering visits the pixels of a `width` by
/// `height` image: every cell of the Hilbert walk of level
/// `hilbert_level(width, height)`, upward from the top left corner, its last
/// cell included, keeping the cells that are pixels. A one pixel image has a
/// walk of level 0, its one cell.
pub fn riemersma_order(width: u32, height: u32) -> (order: Vec<(u32, u32)>)
    requires
        larger(width, height) >= 1,
        width <= i32::MAX,
        height <= i32::MAX,
    ensures
        order@ == riemersma_order_spec(width, height),
        exists|ix: Seq<int>|
            #[trigger] follows_cells(
                order@,
                ix,
                hilbert_path(walk_level(larger(width, height)), Dir::UP, (0, 0)),
                width as int,
                height as int,
            ),
{
    let level = hilbert_level(width, height);
    let ghost path = hilbert_path(level as nat, Dir::UP, (0, 0));
    let mut pos: (i64, i64) = (0, 0);
    let mut out: Vec<(u32, u32)> = Vec::new();
    proof {
        lemma_path_shape(level as nat, Dir::UP, (0, 0));
        lemma_side_pos(level as nat);
        lemma_square(side(level as nat) as int);
    }
    if level > 0 {
        proof {
            lemma_side_pos((level - 1) as nat);
        }
        walk(level, Dir::UP, &mut pos, width as i64, height as i64, &mut out);
    } else {
        proof {
            assert(path.drop_last() =~= Seq::<(int, int)>::empty());
            assert(out@ =~= visible(path.drop_last(), width as int, height as int));
        }
    }
    visit(&pos, width as i64, height as i64, &mut out);
    proof {
        lemma_split_last(path, width as int, height as int);
        assert(out@ =~= riemersma_order_spec(width, height));
        let ix = lemma_visible_follows(path, width as int, height as int);
        assert(follows_cells(out@, ix, path, width as int, height as int));
    }
    out
}

pub open spec fn pixel_of(p: (int, int)) -> (u32, u32) {
    (p.0 as u32, p.1 as u32)
}

/// `v` is the pixel of the cell `p`, and `p` lies on the image.
pub open spec fn comes_from(v: (u32, u32), p: (int, int), w: int, h: int) -> bool {
    on_image(p, w, h) && v == pixel_of(p)
}

/// What `visible` keeps of a sequence of cells: only its pixels, each of them,
/// and no cell twice when the sequence repeats none.
#[verifier::spinoff_prover]
#[verifier::rlimit(40)]
proof fn lemma_visible_props(s: Seq<(int, int)>, w: int, h: int)
    requires
        0 <= w <= u32::MAX,
        0 <= h <= u32::MAX,
    ensures
        forall|k: int|
            0 <= k < visible(s, w, h).len() ==> exists|i: int|
                0 <= i < s.len() && comes_from(#[trigger] visible(s, w, h)[k], #[trigger] s[i], w, h),
        forall|i: int|
            0 <= i < s.len() && on_image(s[i], w, h) ==> visible(s, w, h).contains(
                pixel_of(#[trigger] s[i]),
            ),
        (forall|i: int, j: int| 0 <= i < s.len() && 0 <= j < s.len() && i != j ==> s[i] != s[j])
            ==> (forall|a: int, b: int|
            0 <= a < visible(s, w, h).len() && 0 <= b < visible(s, w, h).len() && a != b
                ==> visible(s, w, h)[a] != visible(s, w, h)[b]),
    decreases s.len(),
{
    if s.len() == 0 {
        assert(visible(s, w, h).len() == 0);
    } else {
        let t = s.drop_last();
        lemma_visible_props(t, w, h);
        let v = visible(s, w, h);
        let vt = visible(t, w, h);
        let x = s.last();
        assert forall|k: int| 0 <= k < v.len() implies exists|i: int|
            0 <= i < s.len() && comes_from(#[trigger] v[k], #[trigger] s[i], w, h) by {
            if k < vt.len() {
                let i = choose|i: int| 0 <= i < t.len() && on_image(t[i], w, h) && vt[k] == pixel_of(t[i]);
                assert(s[i] == t[i]);
                assert(v[k] == vt[k]);
                assert(0 <= i < s.len() && on_image(s[i], w, h) && v[k] == pixel_of(s[i]));
            } else {
                assert(on_image(x, w, h));
                assert(v == vt.push(pixel_of(x)));
                assert(v[k] == pixel_of(s[s.len() - 1]));
            }
        }
        assert forall|i: int| 0 <= i < s.len() && on_image(s[i], w, h) implies v.contains(
            pixel_of(#[trigger] s[i]),
        ) by {
            if i < t.len() {
                assert(t[i] == s[i]);
                assert(vt.contains(pixel_of(t[i])));
                let k = choose|k: int| 0 <= k < vt.len() && vt[k] == pixel_of(t[i]);
                assert(v[k] == vt[k]);
            } else {
                assert(v[v.len() - 1] == pixel_of(s[i]));
            }
        }
        if forall|i: int, j: int| 0 <= i < s.len() && 0 <= j < s.len() && i != j ==> s[i] != s[j] {
            assert(forall|i: int, j: int| 0 <= i < t.len() && 0 <= j < t.len() && i != j ==> t[i] != t[j]) by {
                assert forall|i: int, j: int| 0 <= i < t.len() && 0 <= j < t.len() && i != j implies t[i] != t[j] by {
                    assert(t[i] == s[i] && t[j] == s[j]);
                }
            }
            if on_image(x, w, h) {
                assert forall|a: int, b: int|
                    0 <= a < v.len() && 0 <= b < v.len() && a != b implies v[a] != v[b] by {
                    if a < vt.len() && b < vt.len() {
                        assert(v[a] == vt[a] && v[b] == vt[b]);
                    } else if a < vt.len() {
                        let i = choose|i: int| 0 <= i < t.len() && on_image(t[i], w, h) && vt[a] == pixel_of(t[i]);
                        assert(s[i] == t[i]);
                        assert(s[i] != s[s.len() - 1]);
                    } else if b < vt.len() {
                        let i = choose|i: int| 0 <= i < t.len() && on_image(t[i], w, h) && vt[b] == pixel_of(t[i]);
                        assert(s[i] == t[i]);
                        assert(s[i] != s[s.len() - 1]);
                    }
                }
            }
        }
    }
}

/// The cells of `s`, numbered by `ix`, that are pixels of a `w` by `h` image:
/// `ix` rises, each entry of `order` is the pixel of the cell it numbers, and
/// every cell of `s` that is a pixel is numbered.
pub open spec fn follows_cells(order: Seq<(u32, u32)>, ix: Seq<int>, s: Seq<(int, int)>, w: int, h: int) -> bool {
    &&& ix.len() == order.len()
    &&& forall|a: int, b: int| 0 <= a < b < ix.len() ==> ix[a] < ix[b]
    &&& forall|k: int|
        0 <= k < ix.len() ==> 0 <= #[trigger] ix[k] < s.len() && on_image(s[ix[k]], w, h)
            && order[k].0 == s[ix[k]].0 && order[k].1 == s[ix[k]].1
    &&& forall|i: int|
        0 <= i < s.len() && on_image(#[trigger] s[i], w, h) ==> exists|k: int| 0 <= k < ix.len() && ix[k] == i
}

/// `visible` keeps the pixels of a sequence of cells, all of them, in order.
pub proof fn lemma_visible_follows(s: Seq<(int, int)>, w: int, h: int) -> (ix: Seq<int>)
    requires
        0 <= w <= u32::MAX,
        0 <= h <= u32::MAX,
    ensures
        follows_cells(visible(s, w, h), ix, s, w, h),
    decreases s.len(),
{
    if s.len() == 0 {
        Seq::empty()
    } else {
        let n = s.len() - 1;
        let init = s.drop_last();
        let prev = lemma_visible_follows(init, w, h);
        let p = s.last();
        let r = visible(init, w, h);
        let v = visible(s, w, h);
        assert(p == s[n]);
        assert forall|i: int| 0 <= i < n implies #[trigger] s[i] == init[i] by {}
        let ix = if on_image(p, w, h) {
            prev.push(n)
        } else {
            prev
        };
        assert forall|k: int| 0 <= k < ix.len() implies 0 <= #[trigger] ix[k] < s.len() && on_image(
            s[ix[k]],
            w,
            h,
        ) && v[k].0 == s[ix[k]].0 && v[k].1 == s[ix[k]].1 by {
            if k < prev.len() {
                assert(ix[k] == prev[k]);
                assert(v[k] == r[k]);
                assert(s[prev[k]] == init[prev[k]]);
            }
        }
        assert forall|i: int| 0 <= i < s.len() && on_image(#[trigger] s[i], w, h) implies exists|k: int|
            0 <= k < ix.len() && ix[k] == i by {
            if i < n {
                assert(on_image(init[i], w, h));
                let k = choose|k: int| 0 <= k < prev.len() && prev[k] == i;
                assert(ix[k] == i);
            } else {
                assert(ix[ix.len() - 1] == i);
            }
        }
        ix
    }
}

/// Riemersma dithering visits every pixel of the image exactly once.
#[verifier::spinoff_prover]
#[verifier::rlimit(40)]
pub proof fn lemma_riemersma_visits_each_pixel_once(width: u32, height: u32)
    requires
        larger(width, height) >= 1,
    ensures
        ({
            let order = riemersma_order_spec(width, height);
            &&& forall|k: int| 0 <= k < order.len() ==> #[trigger] order[k].0 < width && order[k].1 < height
            &&& forall|a: int, b: int|
                0 <= a < order.len() && 0 <= b < order.len() && a != b ==> order[a] != order[b]
            &&& forall|x: u32, y: u32| x < width && y < height ==> order.contains((x, y))
        }),
{
    let m = larger(width, height);
    let l = walk_level(m);
    let order = riemersma_order_spec(width, height);
    let (w, h) = (width as int, height as int);
    let n = side(l) as int;
    let path = hilbert_path(l, Dir::UP, (0, 0));
    assert(exists|k: nat| covers_level(k, m)) by {
        lemma_level_exists(m);
    }
    lemma_path_shape(l, Dir::UP, (0, 0));
    lemma_path_distinct(l, Dir::UP, (0, 0));
    lemma_visible_props(path, w, h);
    lemma_side_pos(l);
    assert forall|k: int| 0 <= k < order.len() implies #[trigger] order[k].0 < width && order[k].1 < height by {
        let i = choose|i: int| 0 <= i < path.len() && comes_from(order[k], path[i], w, h);
    }
    assert forall|x: u32, y: u32| x < width && y < height implies order.contains((x, y)) by {
        let q = (x as int, y as int);
        assert(in_square(q, corner(Dir::UP, (0, 0), n), n));
        lemma_path_covers(l, Dir::UP, (0, 0), q);
        let i = choose|i: int| 0 <= i < path.len() && #[trigger] path[i] == q;
        assert(pixel_of(q) == (x, y));
    }
}

proof fn lemma_level_exists(m: nat)
    requires
        m >= 1,
        m <= u32::MAX,
    ensures
        exists|k: nat| covers_level(k, m),
{
    lemma_level_search(m, 0);
}

proof fn lemma_level_search(m: nat, l: nat)
    requires
        1 <= m,
        l == 0 || side((l - 1) as nat) < m,
    ensures
        exists|k: nat| covers_level(k, m),
    decreases if m > side(l) { m - side(l) } else { 0 },
{
    lemma_side_pos(l);
    if m <= side(l) {
        assert(covers_level(l, m));
    } else {
        assert(side(l + 1) == 2 * side(l));
        lemma_level_search(m, l + 1);
    }
}

} // verus!