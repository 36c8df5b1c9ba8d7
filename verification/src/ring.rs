//! A fixed size ring buffer: the queue of the last `N` errors of Riemersma dithering.
use vstd::prelude::*;

verus! {

/// A ring of `N` slots. Reading starts at `front`; pushing a value overwrites
/// the slot at `front` and moves `front` on by one.
pub struct Ring<T, const N: usize> {
    arr: [T; N],
    front: u8,
}

/// The number of slots that the `u8` cursor of a ring of `n` slots cycles over.
pub open spec fn cursor_period(n: usize) -> nat {
    (n % 256) as nat
}

impl<T, const N: usize> Ring<T, N> {
    #[verifier::type_invariant]
    spec fn cursor_in_range(self) -> bool {
        self.front == 0 || (self.front as nat) < cursor_period(N)
    }

    /// The slots, in storage order.
    pub closed spec fn slots(self) -> Seq<T> {
        self.arr@
    }

    /// The slot at which reading starts.
    pub closed spec fn cursor(self) -> nat {
        self.front as nat
    }

    /// The slots in reading order: from the cursor to the end, then from the start.
    pub open spec fn contents(self) -> Seq<T> {
        Seq::new(
            N as nat,
            |i: int|
                if self.cursor() + i < N {
                    self.slots()[self.cursor() + i]
                } else {
                    self.slots()[self.cursor() + i - N]
                },
        )
    }

    /// A ring holding `contents`, read from the first slot.
    pub fn new(contents: [T; N]) -> (r: Self)
        ensures
            r.slots() == contents@,
            r.cursor() == 0,
            r.contents() == contents@,
    {
        let r = Ring { arr: contents, front: 0 };
        assert(r.contents() =~= contents@);
        r
    }

    /// Takes the value in the slot at the cursor, stores `push_back` there,
    /// and moves the cursor on by one, modulo `N` taken as a `u8`.
    pub fn pop_front_push_back(&mut self, push_back: T) -> (e: T)
        requires
            cursor_period(N) != 0,
        ensures
            e == old(self).slots()[old(self).cursor() as int],
            final(self).slots() == old(self).slots().update(old(self).cursor() as int, push_back),
            final(self).cursor() == (old(self).cursor() + 1) % cursor_period(N),
            N < 256 ==> final(self).contents() == old(self).contents().drop_first().push(push_back),
            N < 256 ==> e == old(self).contents()[0],
    {
        proof {
            use_type_invariant(&*self);
        }
        let ghost old_self = *self;
        let i = self.front as usize;
        let mut v = push_back;
        core::mem::swap(&mut self.arr[i], &mut v);
        let period: u8 = (N % 256) as u8;
        self.front = ((self.front as u16 + 1) % (period as u16)) as u8;
        proof {
            if N < 256 {
                lemma_rotate_push(old_self, *self, push_back);
            }
        }
        v
    }

    /// The values of the ring in reading order.
    pub fn iter(&self) -> (out: Vec<&T>)
        ensures
            out@.len() == N,
            forall|i: int| 0 <= i < N ==> *out@[i] == self.contents()[i],
    {
        proof {
            use_type_invariant(self);
        }
        let mut out: Vec<&T> = Vec::new();
        let start = self.front as usize;
        let mut k: usize = start;
        while k < N
            invariant
                start <= N,
                start == self.cursor(),
                start <= k <= N,
                out@.len() == k - start,
                self.slots().len() == N,
                forall|i: int| 0 <= i < out@.len() ==> *out@[i] == self.contents()[i],
            decreases N - k,
        {
            out.push(&self.arr[k]);
            k = k + 1;
        }
        let mut j: usize = 0;
        while j < start
            invariant
                start <= N,
                start == self.cursor(),
                j <= start,
                out@.len() == N - start + j,
                self.slots().len() == N,
                forall|i: int| 0 <= i < out@.len() ==> *out@[i] == self.contents()[i],
            decreases start - j,
        {
            out.push(&self.arr[j]);
            j = j + 1;
        }
        out
    }
}

/// With fewer than 256 slots, one pop-and-push of the ring is a queue step.
proof fn lemma_rotate_push<T, const N: usize>(before: Ring<T, N>, after: Ring<T, N>, x: T)
    requires
        N < 256,
        N > 0,
        before.cursor() < N,
        before.slots().len() == N,
        after.slots() == before.slots().update(before.cursor() as int, x),
        after.cursor() == (before.cursor() + 1) % (N as nat),
    ensures
        after.contents() == before.contents().drop_first().push(x),
{
    let c = before.cursor() as int;
    let n = N as int;
    let c2 = after.cursor() as int;
    if c + 1 < n {
        vstd::arithmetic::div_mod::lemma_small_mod((c + 1) as nat, N as nat);
    } else {
        vstd::arithmetic::div_mod::lemma_mod_self_0(n);
    }
    assert(c2 == if c + 1 < n { c + 1 } else { 0 });
    assert forall|i: int| 0 <= i < n implies #[trigger] after.contents()[i] == before.contents().drop_first().push(x)[i] by {
        if i < n - 1 {
            assert(before.contents().drop_first().push(x)[i] == before.contents()[i + 1]);
            if c + 1 + i < n {
                assert(c2 + i < n);
            } else {
                assert(c2 + i - n == c + 1 + i - n || c2 + i == c + 1 + i - n);
            }
        } else {
            if c + 1 < n {
                assert(c2 + i - n == c);
            } else {
                assert(c2 + i == c);
            }
        }
    }
    assert(after.contents() =~= before.contents().drop_first().push(x));
}

} // verus!
