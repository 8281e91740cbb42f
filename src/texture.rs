use vstd::prelude::*;

verus! {

/// How coordinates outside `[0, 1]` are brought back onto a texture.
#[derive(Clone, Copy, Debug, PartialEq, Eq, Structural)]
pub enum TextureSamplingMode {
    /// Coordinates wrap around.
    Repeat,
    /// Coordinates stop at the edges.
    Clamp,
}

/// A texture: `width * height` packed `0x00RRGGBB` texels, row by row.
pub struct Texture {
    width: usize,
    height: usize,
    buffer: Vec<u32>,
    sampling_mode: TextureSamplingMode,
}

impl Texture {
    pub closed spec fn width_spec(&self) -> usize {
        self.width
    }

    pub closed spec fn height_spec(&self) -> usize {
        self.height
    }

    pub closed spec fn texels(&self) -> Seq<u32> {
        self.buffer@
    }

    pub closed spec fn mode(&self) -> TextureSamplingMode {
        self.sampling_mode
    }

    /// A black texture of the given size.
    pub fn new(width: usize, height: usize, sampling_mode: TextureSamplingMode) -> (r: Texture)
        requires
            width * height <= usize::MAX,
        ensures
            r.width_spec() == width,
            r.height_spec() == height,
            r.mode() == sampling_mode,
            r.texels() == Seq::new((width * height) as nat, |i: int| 0u32),
    {
        let buffer = vec![0u32; width * height];
        assert(buffer@ =~= Seq::new((width * height) as nat, |i: int| 0u32));
        Texture { width, height, buffer, sampling_mode }
    }

    /// A texture over the given texels, taken as they are.
    pub fn from_buffer(buffer: Vec<u32>, width: usize, height: usize, sampling_mode: TextureSamplingMode) -> (r: Texture)
        ensures
            r.width_spec() == width,
            r.height_spec() == height,
            r.mode() == sampling_mode,
            r.texels() == buffer@,
    {
        Texture { width, height, buffer, sampling_mode }
    }

    /// Replaces the texels; the size and mode stay.
    pub fn set_buffer(&mut self, buffer: Vec<u32>)
        ensures
            final(self).texels() == buffer@,
            final(self).width_spec() == old(self).width_spec(),
            final(self).height_spec() == old(self).height_spec(),
            final(self).mode() == old(self).mode(),
    {
        self.buffer = buffer;
    }

    pub fn width(&self) -> (r: usize)
        ensures
            r == self.width_spec(),
    {
        self.width
    }

    pub fn height(&self) -> (r: usize)
        ensures
            r == self.height_spec(),
    {
        self.height
    }

    pub fn sampling_mode(&self) -> (r: TextureSamplingMode)
        ensures
            r == self.mode(),
    {
        self.sampling_mode
    }

    pub fn get_buffer_read(&self) -> (r: &Vec<u32>)
        ensures
            r@ == self.texels(),
    {
        &self.buffer
    }

    pub fn get_buffer_clone(&self) -> (r: Vec<u32>)
        ensures
            r@ == self.texels(),
    {
        let mut out: Vec<u32> = Vec::with_capacity(self.buffer.len());
        let mut i: usize = 0;
        while i < self.buffer.len()
            invariant
                i <= self.buffer@.len(),
                out@ == self.buffer@.subrange(0, i as int),
            decreases self.buffer@.len() - i,
        {
            out.push(self.buffer[i]);
            i += 1;
            assert(out@ =~= self.buffer@.subrange(0, i as int));
        }
        assert(out@ =~= self.buffer@);
        out
    }

    pub fn get_buffer_mut(&mut self) -> (r: &mut Vec<u32>)
        ensures
            r@ == old(self).texels(),
            final(self).texels() == final(r)@,
            final(self).width_spec() == old(self).width_spec(),
            final(self).height_spec() == old(self).height_spec(),
            final(self).mode() == old(self).mode(),
    {
        &mut self.buffer
    }

    /// The texel in column `x` of row `y`, if the buffer holds it.
    pub fn texel(&self, x: usize, y: usize) -> (r: Option<u32>)
        ensures
            r == (if x < self.width_spec() && y * self.width_spec() + x < self.texels().len() {
                Some(self.texels()[y * self.width_spec() + x])
            } else {
                None
            }),
    {
        let len = self.buffer.len();
        if x >= self.width {
            return None;
        }
        match y.checked_mul(self.width) {
            Some(row) => {
                if row < len && x < len - row {
                    Some(self.buffer[row + x])
                } else {
                    None
                }
            },
            None => None,
        }
    }
}

} // verus!
