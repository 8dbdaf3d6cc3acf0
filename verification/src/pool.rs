//! The worker pool's bookkeeping: how many slots there are, and which slot a
//! job is handed to.
use vstd::prelude::*;
use rand::Rng;

verus! {

/// A fixed number of worker slots.
pub struct ThreadPool {
    pub resources: Vec<bool>,
}

/// The number of slots of a pool made without a size.
pub const DEFAULT_SIZE: u32 = 10;

/// `rand::thread_rng().gen_range(0..=upper)`: some number from 0 to `upper`,
/// both ends included. Which one is left open.
#[verifier::external_body]
fn draw_up_to(upper: usize) -> (r: usize)
    ensures
        r <= upper,
{
    rand::thread_rng().gen_range(0..=upper)
}

impl ThreadPool {
    /// The number of slots.
    pub open spec fn size(&self) -> nat {
        self.resources@.len()
    }

    /// A pool of `_size` free slots, of ten where no size is given.
    pub fn new(_size: Option<u32>) -> (r: ThreadPool)
        ensures
            r.size() == match _size {
                Some(n) => n as nat,
                None => DEFAULT_SIZE as nat,
            },
            forall|i: int| 0 <= i < r.size() ==> r.resources@[i],
    {
        let size: u32 = match _size {
            Some(n) => n,
            None => DEFAULT_SIZE,
        };
        let mut resources: Vec<bool> = Vec::new();
        let mut i: u32 = 0;
        while i < size
            invariant
                i <= size,
                resources@.len() == i,
                forall|j: int| 0 <= j < resources@.len() ==> resources@[j],
            decreases size - i,
        {
            resources.push(true);
            i += 1;
        }
        ThreadPool { resources }
    }

    /// The slot that a draw stands for: the draw itself where it names a
    /// slot, and none where it falls past the last one.
    pub fn slot_for(&self, draw: usize) -> (r: Option<usize>)
        ensures
            r == if draw < self.size() {
                Some(draw)
            } else {
                None::<usize>
            },
    {
        if draw < self.resources.len() {
            Some(draw)
        } else {
            None
        }
    }

    /// Draws the slot for the next job. The draw ranges over the slots and
    /// one position more, so a job may be given no slot at all.
    pub fn pick(&self) -> (r: Option<usize>)
        ensures
            r matches Some(i) ==> i < self.size(),
    {
        let draw = draw_up_to(self.resources.len());
        self.slot_for(draw)
    }
}

} // verus!
