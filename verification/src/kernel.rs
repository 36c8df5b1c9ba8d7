//! Error diffusion kernels: which neighbours of a pixel receive which share of
//! its quantization error.
//!
//! A tap `(dx, dy, weight)` sends `weight / divisor` of the error of pixel
//! `(x, y)` to pixel `(x + dx, y + dy)`; a negative `dx` is taken with
//! wrapping `u32` subtraction, and a target off the image receives nothing.
use vstd::prelude::*;

verus! {

/// One neighbour of a diffusion kernel.
#[derive(Clone, Copy, Debug, PartialEq, Eq)]
pub struct Tap {
    pub dx: i8,
    pub dy: u8,
    pub weight: u8,
}

/// A diffusion kernel: its taps in the order they are applied, and the
/// divisor of their weights.
pub struct Kernel {
    pub taps: Vec<Tap>,
    pub divisor: u8,
}

pub open spec fn tap(dx: int, dy: int, weight: int) -> Tap {
    Tap { dx: dx as i8, dy: dy as u8, weight: weight as u8 }
}

/// The taps reach at most two columns to either side and two rows down.
pub open spec fn taps_in_reach(taps: Seq<Tap>) -> bool {
    forall|i: int| 0 <= i < taps.len() ==> -2 <= #[trigger] taps[i].dx <= 2 && taps[i].dy <= 2
}

/// Every tap of `taps` can be taken from pixel `(x, y)`: its column and row
/// offsets add without overflow (a negative column offset wraps instead).
pub open spec fn taps_fit(taps: Seq<Tap>, x: u32, y: u32) -> bool {
    forall|i: int|
        0 <= i < taps.len() ==> #[trigger] taps[i].dx > i8::MIN && (taps[i].dx >= 0 ==> x
            + taps[i].dx <= u32::MAX) && y + taps[i].dy <= u32::MAX
}

/// The sum of the weights of `taps`.
pub open spec fn weight_sum(taps: Seq<Tap>) -> int
    decreases taps.len(),
{
    if taps.len() == 0 {
        0
    } else {
        weight_sum(taps.drop_last()) + taps.last().weight
    }
}

/// The column `x + dx`, with wrapping subtraction for a negative `dx`.
pub open spec fn target_column(x: u32, dx: i8) -> int {
    if dx >= 0 || x + dx >= 0 {
        x + dx
    } else {
        x + dx + 0x1_0000_0000
    }
}

/// The taps of `taps` whose target lies on a `width` by `height` image, as
/// `(column, row, weight)`, in order.
pub open spec fn kernel_targets(taps: Seq<Tap>, x: u32, y: u32, width: u32, height: u32) -> Seq<(u32, u32, u8)>
    decreases taps.len(),
{
    if taps.len() == 0 {
        Seq::empty()
    } else {
        let r = kernel_targets(taps.drop_last(), x, y, width, height);
        let t = taps.last();
        let tx = target_column(x, t.dx);
        let ty = y + t.dy;
        if tx < width && ty < height {
            r.push((tx as u32, ty as u32, t.weight))
        } else {
            r
        }
    }
}

/// Tap `tap` taken from pixel `(x, y)` lands on a `width` by `height`
/// image: row `y + dy` is a row of it, and so is column `x + dx`, or, when
/// `x + dx` is negative, the column it wraps to, `x + dx + 2^32`.
pub open spec fn lands(tap: Tap, x: u32, y: u32, width: u32, height: u32) -> bool {
    &&& y + tap.dy < height
    &&& (0 <= x + tap.dx < width || (x + tap.dx < 0 && x + tap.dx + 0x1_0000_0000 < width))
}

/// `target` is where tap `tap` taken from pixel `(x, y)` lands, with its weight.
pub open spec fn hits(target: (u32, u32, u8), tap: Tap, x: u32, y: u32, width: u32, height: u32) -> bool {
    &&& target.2 == tap.weight
    &&& target.1 == y + tap.dy
    &&& (target.0 == x + tap.dx || target.0 == x + tap.dx + 0x1_0000_0000)
    &&& target.0 < width
    &&& target.1 < height
}

/// `ix` numbers the taps that `targets` came from: it rises, each target is
/// where its tap lands, and every tap that lands on the image is numbered.
pub open spec fn follows_taps(
    targets: Seq<(u32, u32, u8)>,
    ix: Seq<int>,
    taps: Seq<Tap>,
    x: u32,
    y: u32,
    width: u32,
    height: u32,
) -> bool {
    &&& ix.len() == targets.len()
    &&& forall|a: int, b: int| 0 <= a < b < ix.len() ==> ix[a] < ix[b]
    &&& forall|k: int|
        0 <= k < ix.len() ==> 0 <= #[trigger] ix[k] < taps.len() && hits(
            targets[k],
            taps[ix[k]],
            x,
            y,
            width,
            height,
        )
    &&& forall|i: int|
        0 <= i < taps.len() && lands(#[trigger] taps[i], x, y, width, height) ==> exists|k: int|
            0 <= k < ix.len() && ix[k] == i
}

/// The targets of a pixel are exactly the taps that land on the image, in tap
/// order: each target `(tx, ty, w)` comes from a tap `(dx, dy, w)` with
/// `ty == y + dy` and `tx == x + dx` (wrapping for a negative `dx`), and every
/// tap whose target lies on the image gives one.
pub proof fn lemma_targets_follow_taps(taps: Seq<Tap>, x: u32, y: u32, width: u32, height: u32) -> (ix: Seq<int>)
    ensures
        follows_taps(kernel_targets(taps, x, y, width, height), ix, taps, x, y, width, height),
    decreases taps.len(),
{
    if taps.len() == 0 {
        Seq::empty()
    } else {
        let n = taps.len() - 1;
        let init = taps.drop_last();
        let prev = lemma_targets_follow_taps(init, x, y, width, height);
        let t = taps.last();
        let r = kernel_targets(init, x, y, width, height);
        let res = kernel_targets(taps, x, y, width, height);
        assert(t == taps[n]);
        assert forall|i: int| 0 <= i < n implies #[trigger] taps[i] == init[i] by {}
        let ix = if lands(t, x, y, width, height) {
            prev.push(n)
        } else {
            prev
        };
        assert forall|k: int| 0 <= k < ix.len() implies 0 <= #[trigger] ix[k] < taps.len() && hits(
            res[k],
            taps[ix[k]],
            x,
            y,
            width,
            height,
        ) by {
            if k < prev.len() {
                assert(ix[k] == prev[k]);
                assert(res[k] == r[k]);
                assert(taps[prev[k]] == init[prev[k]]);
            }
        }
        assert forall|i: int|
            0 <= i < taps.len() && lands(#[trigger] taps[i], x, y, width, height) implies exists|k: int|
            0 <= k < ix.len() && ix[k] == i by {
            if i < n {
                assert(lands(init[i], x, y, width, height));
                let k = choose|k: int| 0 <= k < prev.len() && prev[k] == i;
                assert(ix[k] == i);
            } else {
                assert(ix[ix.len() - 1] == i);
            }
        }
        ix
    }
}

impl Kernel {
    /// The pixels of a `width` by `height` image that receive a share of the
    /// error of pixel `(x, y)`, as `(column, row, weight)`, in tap order.
    pub fn targets(&self, x: u32, y: u32, width: u32, height: u32) -> (t: Vec<(u32, u32, u8)>)
        requires
            taps_fit(self.taps@, x, y),
        ensures
            t@ == kernel_targets(self.taps@, x, y, width, height),
            exists|ix: Seq<int>| #[trigger] follows_taps(t@, ix, self.taps@, x, y, width, height),
    {
        let mut t: Vec<(u32, u32, u8)> = Vec::new();
        let mut i: usize = 0;
        while i < self.taps.len()
            invariant
                i <= self.taps@.len(),
                taps_fit(self.taps@, x, y),
                t@ == kernel_targets(self.taps@.take(i as int), x, y, width, height),
            decreases self.taps@.len() - i,
        {
            let tp = self.taps[i];
            assert(tp == self.taps@[i as int]);
            let tx: u32 = if tp.dx >= 0 {
                x + tp.dx as u32
            } else {
                x.wrapping_sub((-tp.dx) as u32)
            };
            let ty: u32 = y + tp.dy as u32;
            proof {
                assert(self.taps@.take(i + 1).drop_last() =~= self.taps@.take(i as int));
                assert(self.taps@.take(i + 1).last() == tp);
                assert(tx as int == target_column(x, tp.dx));
            }
            if tx < width && ty < height {
                t.push((tx, ty, tp.weight));
            }
            i = i + 1;
        }
        proof {
            assert(self.taps@.take(i as int) =~= self.taps@);
            let ix = lemma_targets_follow_taps(self.taps@, x, y, width, height);
            assert(follows_taps(t@, ix, self.taps@, x, y, width, height));
        }
        t
    }

    /// Sierra (three rows): `* 5 3 / 2 4 5 4 2 / 2 3 2`, over 32.
    pub fn sierra() -> (k: Kernel)
        ensures
            k.taps@ == seq![tap(1, 0, 5), tap(2, 0, 3), tap(-2, 1, 2), tap(-1, 1, 4), tap(0, 1, 5),
                tap(1, 1, 4), tap(2, 1, 2), tap(-1, 2, 2), tap(0, 2, 3), tap(1, 2, 2)],
            k.divisor == 32,
            weight_sum(k.taps@) == k.divisor,
            taps_in_reach(k.taps@),
    {
        let k = Kernel {
            taps: vec![
                Tap { dx: 1, dy: 0, weight: 5 },
                Tap { dx: 2, dy: 0, weight: 3 },
                Tap { dx: -2, dy: 1, weight: 2 },
                Tap { dx: -1, dy: 1, weight: 4 },
                Tap { dx: 0, dy: 1, weight: 5 },
                Tap { dx: 1, dy: 1, weight: 4 },
                Tap { dx: 2, dy: 1, weight: 2 },
                Tap { dx: -1, dy: 2, weight: 2 },
                Tap { dx: 0, dy: 2, weight: 3 },
                Tap { dx: 1, dy: 2, weight: 2 },
            ],
            divisor: 32,
        };
        proof {
            reveal_with_fuel(weight_sum, 11);
            assert(k.taps@.drop_last().drop_last().drop_last().drop_last().drop_last().drop_last().drop_last().drop_last().drop_last().drop_last() =~= Seq::<Tap>::empty());
        }
        k
    }

    /// Two-row Sierra: `* 4 3 / 1 2 3 2 1`, over 16.
    pub fn sierra_two() -> (k: Kernel)
        ensures
            k.taps@ == seq![tap(1, 0, 4), tap(2, 0, 3), tap(-2, 1, 1), tap(-1, 1, 2), tap(0, 1, 3), tap(1, 1, 2), tap(2, 1, 1)],
            k.divisor == 16,
            weight_sum(k.taps@) == k.divisor,
            taps_in_reach(k.taps@),
    {
        let k = Kernel {
            taps: vec![
                Tap { dx: 1, dy: 0, weight: 4 },
                Tap { dx: 2, dy: 0, weight: 3 },
                Tap { dx: -2, dy: 1, weight: 1 },
                Tap { dx: -1, dy: 1, weight: 2 },
                Tap { dx: 0, dy: 1, weight: 3 },
                Tap { dx: 1, dy: 1, weight: 2 },
                Tap { dx: 2, dy: 1, weight: 1 },
            ],
            divisor: 16,
        };
        proof {
            reveal_with_fuel(weight_sum, 8);
            assert(k.taps@.drop_last().drop_last().drop_last().drop_last().drop_last().drop_last().drop_last() =~= Seq::<Tap>::empty());
        }
        k
    }

    /// Sierra lite: `* 2 / 1 1`, over 4.
    pub fn sierra_lite() -> (k: Kernel)
        ensures
            k.taps@ == seq![tap(1, 0, 2), tap(-1, 1, 1), tap(0, 1, 1)],
            k.divisor == 4,
            weight_sum(k.taps@) == k.divisor,
            taps_in_reach(k.taps@),
    {
        let k = Kernel {
            taps: vec![
                Tap { dx: 1, dy: 0, weight: 2 },
                Tap { dx: -1, dy: 1, weight: 1 },
                Tap { dx: 0, dy: 1, weight: 1 },
            ],
            divisor: 4,
        };
        proof {
            reveal_with_fuel(weight_sum, 4);
            assert(k.taps@.drop_last().drop_last().drop_last() =~= Seq::<Tap>::empty());
        }
        k
    }

    /// Jarvis, Judice and Ninke: `* 7 5 / 3 5 7 5 3 / 1 3 5 3 1`, over 48.
    pub fn jarvis() -> (k: Kernel)
        ensures
            k.taps@ == seq![tap(1, 0, 7), tap(2, 0, 5), tap(-2, 1, 3), tap(-1, 1, 5), tap(0, 1, 7), tap(1, 1, 5), tap(2, 1, 3), tap(-2, 2, 1), tap(-1, 2, 3), tap(0, 2, 5), tap(1, 2, 3), tap(2, 2, 1)],
            k.divisor == 48,
            weight_sum(k.taps@) == k.divisor,
            taps_in_reach(k.taps@),
    {
        let k = Kernel {
            taps: vec![
                Tap { dx: 1, dy: 0, weight: 7 },
                Tap { dx: 2, dy: 0, weight: 5 },
                Tap { dx: -2, dy: 1, weight: 3 },
                Tap { dx: -1, dy: 1, weight: 5 },
                Tap { dx: 0, dy: 1, weight: 7 },
                Tap { dx: 1, dy: 1, weight: 5 },
                Tap { dx: 2, dy: 1, weight: 3 },
                Tap { dx: -2, dy: 2, weight: 1 },
                Tap { dx: -1, dy: 2, weight: 3 },
                Tap { dx: 0, dy: 2, weight: 5 },
                Tap { dx: 1, dy: 2, weight: 3 },
                Tap { dx: 2, dy: 2, weight: 1 },
            ],
            divisor: 48,
        };
        proof {
            reveal_with_fuel(weight_sum, 13);
            assert(k.taps@.drop_last().drop_last().drop_last().drop_last().drop_last().drop_last().drop_last().drop_last().drop_last().drop_last().drop_last().drop_last() =~= Seq::<Tap>::empty());
        }
        k
    }

    /// Floyd-Steinberg weights `* 7 / 3 5 1` taken over 48, so that a third of the error is passed on.
    pub fn floyd_steinberg() -> (k: Kernel)
        ensures
            k.taps@ == seq![tap(1, 0, 7), tap(-1, 1, 3), tap(0, 1, 5), tap(1, 1, 1)],
            k.divisor == 48,
            weight_sum(k.taps@) == 16,
            taps_in_reach(k.taps@),
    {
        let k = Kernel {
            taps: vec![
                Tap { dx: 1, dy: 0, weight: 7 },
                Tap { dx: -1, dy: 1, weight: 3 },
                Tap { dx: 0, dy: 1, weight: 5 },
                Tap { dx: 1, dy: 1, weight: 1 },
            ],
            divisor: 48,
        };
        proof {
            reveal_with_fuel(weight_sum, 5);
            assert(k.taps@.drop_last().drop_last().drop_last().drop_last() =~= Seq::<Tap>::empty());
        }
        k
    }

    /// Atkinson: `* 1 1 / 1 1 1 / 1`, each an eighth, so that three quarters of the error are passed on.
    pub fn atkinson() -> (k: Kernel)
        ensures
            k.taps@ == seq![tap(1, 0, 1), tap(2, 0, 1), tap(-1, 1, 1), tap(0, 1, 1), tap(1, 1, 1), tap(0, 2, 1)],
            k.divisor == 8,
            weight_sum(k.taps@) == 6,
            taps_in_reach(k.taps@),
    {
        let k = Kernel {
            taps: vec![
                Tap { dx: 1, dy: 0, weight: 1 },
                Tap { dx: 2, dy: 0, weight: 1 },
                Tap { dx: -1, dy: 1, weight: 1 },
                Tap { dx: 0, dy: 1, weight: 1 },
                Tap { dx: 1, dy: 1, weight: 1 },
                Tap { dx: 0, dy: 2, weight: 1 },
            ],
            divisor: 8,
        };
        proof {
            reveal_with_fuel(weight_sum, 7);
            assert(k.taps@.drop_last().drop_last().drop_last().drop_last().drop_last().drop_last() =~= Seq::<Tap>::empty());
        }
        k
    }
}

} // verus!
