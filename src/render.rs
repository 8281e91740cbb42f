use vstd::prelude::*;
use crate::pcg::{hash, lemma_hash_injective, pcg_hash};

verus! {

/// The seed a render starts from, and returns to on every reset.
pub const INITIAL_SEED: u32 = 153544;

/// The progressive-accumulation state of a render: how many frames have been blended into
/// the image, the seed of the last frame, and whether the hierarchy is being shown instead
/// of the shaded scene.
pub struct Render {
    bvh_debug: bool,
    accumulated_frames: u32,
    seed: u32,
}

/// What the render worker does next.
#[derive(Clone, Copy, Debug, PartialEq, Eq, Structural)]
pub enum WorkerAction {
    /// Wait on the condition variable until the controller resumes the worker.
    Wait,
    /// Leave the loop: the program is shutting down.
    Stop,
    /// Draw one more frame.
    Draw,
    /// Do nothing this round: the sample cap has been reached.
    Idle,
}

/// The decision of the render worker, taken under the lock: wait while paused, then stop
/// if asked to, then draw unless `max_samples` (0 meaning no cap) frames are accumulated.
pub fn worker_step(paused: bool, stop: bool, accumulated_frames: u32, max_samples: u32) -> (r: WorkerAction)
    ensures
        r == (if paused {
            WorkerAction::Wait
        } else if stop {
            WorkerAction::Stop
        } else if max_samples == 0 || accumulated_frames < max_samples {
            WorkerAction::Draw
        } else {
            WorkerAction::Idle
        }),
{
    if paused {
        WorkerAction::Wait
    } else if stop {
        WorkerAction::Stop
    } else if max_samples == 0 || accumulated_frames < max_samples {
        WorkerAction::Draw
    } else {
        WorkerAction::Idle
    }
}

/// The pixel at position `i` of a row-major image `width` pixels wide and `height` high,
/// whose first row is the top one, as `(x, y)`: `y` is `height` for the top row and counts
/// down to 1 for the bottom one.
pub fn pixel_coordinates(i: usize, width: usize, height: usize) -> (r: (usize, usize))
    requires
        width > 0,
        i < width * height,
    ensures
        r.0 == i % width,
        r.1 == height - i / width,
{
    assert(i / width < height) by (nonlinear_arith)
        requires
            width > 0, i < width * height,
    ;
    (i % width, height - i / width)
}

/// The seed of pixel `(x, y)` in a frame: the frame seed and both coordinates mixed
/// through the hash, so that neighbouring pixels and successive frames get unrelated seeds.
pub open spec fn pixel_seed_spec(frame_seed: u32, x: u32, y: u32) -> u32 {
    pcg_hash(pcg_hash(frame_seed ^ x) ^ y)
}

pub fn pixel_seed(frame_seed: u32, x: u32, y: u32) -> (r: u32)
    ensures
        r == pixel_seed_spec(frame_seed, x, y),
{
    hash(hash(frame_seed ^ x) ^ y)
}

/// A pixel's seed changes whenever the frame seed does, and within one frame two pixels
/// of a row, or of a column, never share a seed.
pub proof fn lemma_pixel_seed_varies(frame_seed: u32, other_seed: u32, x: u32, y: u32, x2: u32, y2: u32)
    ensures
        frame_seed != other_seed ==> pixel_seed_spec(frame_seed, x, y) != pixel_seed_spec(other_seed, x, y),
        x != x2 ==> pixel_seed_spec(frame_seed, x, y) != pixel_seed_spec(frame_seed, x2, y),
        y != y2 ==> pixel_seed_spec(frame_seed, x, y) != pixel_seed_spec(frame_seed, x, y2),
{
    lemma_hash_injective(pcg_hash(frame_seed ^ x) ^ y, pcg_hash(other_seed ^ x) ^ y);
    lemma_hash_injective(frame_seed ^ x, other_seed ^ x);
    lemma_hash_injective(pcg_hash(frame_seed ^ x) ^ y, pcg_hash(frame_seed ^ x2) ^ y);
    lemma_hash_injective(frame_seed ^ x, frame_seed ^ x2);
    lemma_hash_injective(pcg_hash(frame_seed ^ x) ^ y, pcg_hash(frame_seed ^ x) ^ y2);
    let (h1, h2, h3) = (pcg_hash(frame_seed ^ x), pcg_hash(other_seed ^ x), pcg_hash(frame_seed ^ x2));
    assert(h1 ^ y == h2 ^ y ==> h1 == h2) by (bit_vector);
    assert(h1 ^ y == h3 ^ y ==> h1 == h3) by (bit_vector);
    assert(h1 ^ y == h1 ^ y2 ==> y == y2) by (bit_vector);
    assert(frame_seed ^ x == other_seed ^ x ==> frame_seed == other_seed) by (bit_vector);
    assert(frame_seed ^ x == frame_seed ^ x2 ==> x == x2) by (bit_vector);
}

impl Render {
    pub closed spec fn frames(&self) -> u32 {
        self.accumulated_frames
    }

    pub closed spec fn seed(&self) -> u32 {
        self.seed
    }

    pub closed spec fn debug(&self) -> bool {
        self.bvh_debug
    }

    /// Whether the hierarchy is shown instead of the shaded scene.
    pub fn bvh_debug(&self) -> (r: bool)
        ensures
            r == self.debug(),
    {
        self.bvh_debug
    }

    /// Shows the hierarchy (`true`) or the shaded scene.
    pub fn set_bvh_debug(&mut self, on: bool)
        ensures
            final(self).debug() == on,
            final(self).frames() == old(self).frames(),
            final(self).seed() == old(self).seed(),
    {
        self.bvh_debug = on;
    }

    /// A render with nothing accumulated.
    pub fn new() -> (r: Render)
        ensures
            r.frames() == 0,
            r.seed() == INITIAL_SEED,
            !r.debug(),
    {
        Render { bvh_debug: false, accumulated_frames: 0, seed: INITIAL_SEED }
    }

    /// Starts a frame: advances the seed to its hash and returns it as the frame seed,
    /// with `accumulated_frames + 1`, the count whose inverse weighs the new sample.
    pub fn begin_frame(&mut self) -> (r: (u32, u64))
        ensures
            r.0 == pcg_hash(old(self).seed()),
            final(self).seed() == r.0,
            r.1 == old(self).frames() + 1,
            final(self).frames() == old(self).frames(),
            final(self).debug() == old(self).debug(),
    {
        self.seed = hash(self.seed);
        (self.seed, self.accumulated_frames as u64 + 1)
    }

    /// Ends a frame: one more frame is accumulated.
    pub fn finish_frame(&mut self)
        requires
            old(self).frames() < u32::MAX,
        ensures
            final(self).frames() == old(self).frames() + 1,
            final(self).seed() == old(self).seed(),
            final(self).debug() == old(self).debug(),
    {
        self.accumulated_frames = self.accumulated_frames + 1;
    }

    /// Forgets everything accumulated: the count goes back to 0 and the seed to its start.
    pub fn reset_accumulated_frames(&mut self)
        ensures
            final(self).frames() == 0,
            final(self).seed() == INITIAL_SEED,
            final(self).debug() == old(self).debug(),
    {
        self.accumulated_frames = 0;
        self.seed = INITIAL_SEED;
    }

    pub fn get_accumulated_frames_count(&self) -> (r: u32)
        ensures
            r == self.frames(),
    {
        self.accumulated_frames
    }
}

} // verus!
