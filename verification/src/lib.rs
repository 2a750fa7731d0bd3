//! A blur hash: a short base-83 text that stands for an image's average colour
//! and its low-frequency shape.
//!
//! This crate holds the integer side of the encoder: how many frequency
//! components are asked for and in which order they are taken, how the
//! averaged colour and the frequency terms are quantized and packed, and how
//! the text is put together from them.
use vstd::prelude::*;

pub mod base83;
pub mod encode;
pub mod error;
pub mod quantize;

pub use crate::encode::encode;
pub use crate::error::Error;

verus! {

/// How many frequency components to take along each axis of the image.
/// Both counts lie in `1..=9`, always.
#[derive(Debug, Clone, Copy, PartialEq, Eq, Structural)]
pub struct Component {
    x: u8,
    y: u8,
}

impl View for Component {
    type V = (nat, nat);

    /// The counts along x and along y.
    closed spec fn view(&self) -> (nat, nat) {
        (self.x as nat, self.y as nat)
    }
}

/// Whether a count of components is one that a `Component` may hold.
pub open spec fn count_in_bounds(n: int) -> bool {
    1 <= n <= 9
}

impl Component {
    #[verifier::type_invariant]
    spec fn in_bounds(self) -> bool {
        count_in_bounds(self.x as int) && count_in_bounds(self.y as int)
    }

    /// Whether both counts lie in `1..=9`. It holds of every component that
    /// `try_new` has made, and no other can be made.
    pub open spec fn wf(self) -> bool {
        count_in_bounds(self@.0 as int) && count_in_bounds(self@.1 as int)
    }

    /// The number of frequency components, the average colour among them.
    pub open spec fn count(self) -> nat {
        self@.0 * self@.1
    }

    /// The frequency pair `(cx, cy)` that is taken at position `i`: row by row,
    /// `cx` running fastest.
    pub open spec fn frequency(self, i: int) -> (usize, usize) {
        ((i % self@.0 as int) as usize, (i / self@.0 as int) as usize)
    }

    /// A component with `x` by `y` frequencies. A count outside `1..=9` is
    /// refused and handed back in the error; `x` is looked at first.
    pub fn try_new(x: u8, y: u8) -> (made: Result<Component, Error>)
        ensures
            count_in_bounds(x as int) && count_in_bounds(y as int) ==> made.is_ok()
                && made.unwrap()@ == (x as nat, y as nat) && made.unwrap().wf(),
            !count_in_bounds(x as int) ==> made == Err::<Component, Error>(
                Error::ComponentOutOfBounds(x),
            ),
            count_in_bounds(x as int) && !count_in_bounds(y as int) ==> made == Err::<
                Component,
                Error,
            >(Error::ComponentOutOfBounds(y)),
    {
        if x < 1 || x > 9 {
            return Err(Error::ComponentOutOfBounds(x));
        }
        if y < 1 || y > 9 {
            return Err(Error::ComponentOutOfBounds(y));
        }
        Ok(Component { x, y })
    }

    /// The count along the x axis.
    #[inline]
    pub fn x(&self) -> (x: u8)
        ensures
            x as nat == self@.0,
            self.wf(),
    {
        proof {
            use_type_invariant(self);
        }
        self.x
    }

    /// The count along the y axis.
    #[inline]
    pub fn y(&self) -> (y: u8)
        ensures
            y as nat == self@.1,
            self.wf(),
    {
        proof {
            use_type_invariant(self);
        }
        self.y
    }

    /// A component asks for 1 to 81 frequencies.
    pub proof fn lemma_bounds(self)
        requires
            self.wf(),
        ensures
            1 <= self.count() <= 81,
    {
        assert(1 <= self@.0 * self@.1 <= 81) by (nonlinear_arith)
            requires
                1 <= self@.0 <= 9,
                1 <= self@.1 <= 9,
        ;
    }

    /// The frequency pairs in the order in which their terms enter the hash:
    /// `(0, 0)` first, then row by row with `cx` running fastest.
    pub fn frequencies(&self) -> (pairs: Vec<(usize, usize)>)
        ensures
            pairs@.len() == self.count(),
            forall|i: int| 0 <= i < pairs@.len() ==> #[trigger] pairs@[i] == self.frequency(i),
            forall|i: int|
                0 <= i < pairs@.len() ==> (#[trigger] pairs@[i]).0 < self@.0 && pairs@[i].1
                    < self@.1,
    {
        let nx: usize = self.x() as usize;
        let ny: usize = self.y() as usize;
        let mut pairs: Vec<(usize, usize)> = Vec::new();
        let mut cy: usize = 0;
        while cy < ny
            invariant
                nx == self@.0,
                ny == self@.1,
                1 <= nx <= 9,
                cy <= ny <= 9,
                pairs@.len() == cy * nx,
                forall|i: int| 0 <= i < pairs@.len() ==> #[trigger] pairs@[i] == self.frequency(i),
            decreases ny - cy,
        {
            let mut cx: usize = 0;
            while cx < nx
                invariant
                    nx == self@.0,
                    1 <= nx <= 9,
                    cy < 9,
                    cx <= nx,
                    pairs@.len() == cy * nx + cx,
                    forall|i: int|
                        0 <= i < pairs@.len() ==> #[trigger] pairs@[i] == self.frequency(i),
                decreases nx - cx,
            {
                proof {
                    let i = cy * nx + cx;
                    vstd::arithmetic::div_mod::lemma_fundamental_div_mod_converse(
                        i as int,
                        nx as int,
                        cy as int,
                        cx as int,
                    );
                }
                pairs.push((cx, cy));
                cx = cx + 1;
            }
            cy = cy + 1;
            assert(pairs@.len() == cy * nx) by (nonlinear_arith)
                requires
                    pairs@.len() == (cy - 1) * nx + nx,
            ;
        }
        proof {
            assert forall|i: int| 0 <= i < pairs@.len() implies (#[trigger] pairs@[i]).0 < self@.0
                && pairs@[i].1 < self@.1 by {
                assert(pairs@[i] == self.frequency(i));
                vstd::arithmetic::div_mod::lemma_mod_bound(i, nx as int);
                vstd::arithmetic::div_mod::lemma_fundamental_div_mod(i, nx as int);
                assert(i / (nx as int) < ny) by (nonlinear_arith)
                    requires
                        0 <= i < ny * nx,
                        nx > 0,
                        i == nx * (i / (nx as int)) + i % (nx as int),
                        0 <= i % (nx as int),
                ;
                assert(0 <= i / (nx as int)) by (nonlinear_arith)
                    requires
                        0 <= i,
                        nx > 0,
                ;
            }
        }
        pairs
    }
}

} // verus!
