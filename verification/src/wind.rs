use vstd::prelude::*;
use crate::atlas::{DynamicAtlas, zeroed};
use crate::grid::{texel, corner_texels, read_texel, read_corners};

verus! {

/// The wind texture that particles sample: a `width` by `height` RGBA image
/// whose red and green bytes encode the wind components and whose alpha
/// byte marks valid data. The world bounds that map positions onto the
/// image are kept by the caller.
pub struct WindSampler {
    data: Vec<u8>,
    width: u32,
    height: u32,
}

impl WindSampler {
    /// Pixel indices of the image fit in 32 bits.
    pub open spec fn wf(&self) -> bool {
        self.spec_width() * self.spec_height() * 4 <= u32::MAX
    }

    pub closed spec fn spec_data(&self) -> Seq<u8> {
        self.data@
    }

    pub closed spec fn spec_width(&self) -> u32 {
        self.width
    }

    pub closed spec fn spec_height(&self) -> u32 {
        self.height
    }

    /// A `width` by `height` texture of zero bytes.
    pub fn new(width: u32, height: u32) -> (s: Self)
        requires
            width * height * 4 <= u32::MAX,
        ensures
            s.wf(),
            s.spec_width() == width,
            s.spec_height() == height,
            s.spec_data().len() == width * height * 4,
            forall|i: int| 0 <= i < width * height * 4 ==> #[trigger] s.spec_data()[i] == 0,
    {
        WindSampler { data: zeroed((width * height * 4) as usize), width, height }
    }

    pub fn width(&self) -> (r: u32)
        ensures
            r == self.spec_width(),
    {
        self.width
    }

    pub fn height(&self) -> (r: u32)
        ensures
            r == self.spec_height(),
    {
        self.height
    }

    pub fn get_width(&self) -> (r: u32)
        ensures
            r == self.spec_width(),
    {
        self.width
    }

    pub fn get_height(&self) -> (r: u32)
        ensures
            r == self.spec_height(),
    {
        self.height
    }

    pub fn get_data_len(&self) -> (r: usize)
        ensures
            r == self.spec_data().len(),
    {
        self.data.len()
    }

    /// The texture bytes, row-major RGBA.
    pub fn data(&self) -> (r: &Vec<u8>)
        ensures
            r@ == self.spec_data(),
    {
        &self.data
    }

    /// Replaces the texture bytes; the size stays.
    pub fn set_data(&mut self, data: &[u8])
        requires
            old(self).wf(),
        ensures
            final(self).wf(),
            final(self).spec_data() == data@,
            final(self).spec_width() == old(self).spec_width(),
            final(self).spec_height() == old(self).spec_height(),
    {
        let mut v: Vec<u8> = Vec::new();
        let mut i: usize = 0;
        while i < data.len()
            invariant
                i <= data@.len(),
                v@ == data@.take(i as int),
            decreases data@.len() - i,
        {
            v.push(data[i]);
            proof {
                assert(data@.take(i + 1) =~= data@.take(i as int).push(data@[i as int]));
            }
            i = i + 1;
        }
        proof {
            assert(data@.take(data@.len() as int) =~= data@);
        }
        self.data = v;
    }

    /// A texture holding a copy of the atlas pixels and its size.
    pub fn from_atlas(atlas: &DynamicAtlas) -> (s: Self)
        requires
            atlas.wf(),
        ensures
            s.wf(),
            s.spec_width() == atlas.spec_width(),
            s.spec_height() == atlas.spec_height(),
            s.spec_data() == atlas.spec_data(),
    {
        proof {
            atlas.lemma_size_bound();
        }
        WindSampler { data: atlas.data().clone(), width: atlas.get_width(), height: atlas.get_height() }
    }

    /// Takes the atlas pixels and size.
    pub fn update_from_atlas(&mut self, atlas: &DynamicAtlas)
        requires
            atlas.wf(),
        ensures
            final(self).wf(),
            final(self).spec_width() == atlas.spec_width(),
            final(self).spec_height() == atlas.spec_height(),
            final(self).spec_data() == atlas.spec_data(),
    {
        proof {
            atlas.lemma_size_bound();
        }
        self.width = atlas.get_width();
        self.height = atlas.get_height();
        self.data = atlas.data().clone();
    }

    /// Red, green and blue of pixel (ix, iy) and whether its alpha is above
    /// 127; `(0, 0, 0, false)` outside the image or past the end of the data.
    pub fn sample_pixel(&self, ix: u32, iy: u32) -> (r: (u8, u8, u8, bool))
        requires
            self.wf(),
        ensures
            r == texel(self.spec_data(), self.spec_width() as int, self.spec_height() as int, ix as int, iy as int),
    {
        read_texel(&self.data, self.width, self.height, ix, iy)
    }

    /// Whether pixel (ix, iy) holds valid wind (alpha above 127).
    pub fn pixel_is_valid(&self, ix: u32, iy: u32) -> (r: bool)
        requires
            self.wf(),
        ensures
            r == texel(self.spec_data(), self.spec_width() as int, self.spec_height() as int, ix as int, iy as int).3,
    {
        let t = read_texel(&self.data, self.width, self.height, ix, iy);
        t.3
    }

    /// The red and green bytes of the four pixels around (x0, y0) used for
    /// bilinear sampling, or `None` unless all four are valid.
    pub fn sample_corners(&self, x0: u32, y0: u32) -> (r: Option<((u8, u8), (u8, u8), (u8, u8), (u8, u8))>)
        requires
            self.wf(),
            self.spec_width() > 0,
            self.spec_height() > 0,
            x0 < u32::MAX,
            y0 < u32::MAX,
        ensures
            r == corner_texels(self.spec_data(), self.spec_width() as int, self.spec_height() as int, x0 as int, y0 as int),
    {
        read_corners(&self.data, self.width, self.height, x0, y0)
    }
}

} // verus!
