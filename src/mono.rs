use vstd::prelude::*;

use crate::nearest::is_first_min;

verus! {

/// A monochromatic pixel: one 8-bit channel holding its luminance.
#[derive(Debug, Clone, Copy, PartialEq, Eq, Structural)]
pub struct MonoPixel(pub u8);

/// `v` held to the range of a channel, 0 to 255.
pub open spec fn clamp_channel(v: int) -> int {
    if v < 0 {
        0
    } else if v > 255 {
        255
    } else {
        v
    }
}

/// How far apart two luminances are.
pub open spec fn luminance_distance(a: MonoPixel, b: MonoPixel) -> int {
    if a.0 >= b.0 {
        a.0 - b.0
    } else {
        b.0 - a.0
    }
}

/// The distance of each palette entry from `p`, in palette order.
pub open spec fn distances(p: MonoPixel, palette: Seq<MonoPixel>) -> Seq<int> {
    palette.map_values(|c: MonoPixel| luminance_distance(p, c))
}

/// The two-entry palette of black and white.
pub fn one_bit() -> (r: Vec<MonoPixel>)
    ensures
        r@ == seq![MonoPixel(0), MonoPixel(255)],
{
    vec![MonoPixel(0), MonoPixel(255)]
}

impl From<u8> for MonoPixel {
    fn from(value: u8) -> (r: MonoPixel)
        ensures
            r.0 == value,
    {
        MonoPixel(value)
    }
}

impl vstd::std_specs::convert::FromSpecImpl<u8> for MonoPixel {
    open spec fn obeys_from_spec() -> bool {
        true
    }

    open spec fn from_spec(v: u8) -> MonoPixel {
        MonoPixel(v)
    }
}

impl MonoPixel {
    /// Adds an error to the luminance, holding the result to 0..=255.
    pub fn add_error(self, error: i32) -> (r: MonoPixel)
        ensures
            r.0 == clamp_channel(self.0 + error),
    {
        let v: i64 = self.0 as i64 + error as i64;
        if v < 0 {
            MonoPixel(0)
        } else if v > 255 {
            MonoPixel(255)
        } else {
            MonoPixel(v as u8)
        }
    }

    /// The palette entry nearest in luminance, the earliest one among
    /// equally near entries.
    pub fn quantize(&self, palette: &[MonoPixel]) -> (r: MonoPixel)
        requires
            palette@.len() > 0,
        ensures
            exists|i: int| is_first_min(distances(*self, palette@), i) && r == palette@[i],
    {
        let ghost ds = distances(*self, palette@);
        let mut best: usize = 0;
        let mut best_dist: u8 = if palette[0].0 >= self.0 {
            palette[0].0 - self.0
        } else {
            self.0 - palette[0].0
        };
        let mut k: usize = 1;
        while k < palette.len()
            invariant
                ds == distances(*self, palette@),
                0 <= best < k <= palette@.len(),
                best_dist == ds[best as int],
                forall|j: int| 0 <= j < k ==> ds[best as int] <= #[trigger] ds[j],
                forall|j: int| 0 <= j < best ==> ds[best as int] < #[trigger] ds[j],
            decreases palette@.len() - k,
        {
            let c = palette[k].0;
            let d: u8 = if c >= self.0 {
                c - self.0
            } else {
                self.0 - c
            };
            if d < best_dist {
                best = k;
                best_dist = d;
            }
            k += 1;
        }
        assert(is_first_min(ds, best as int));
        palette[best]
    }

    /// The signed difference between this luminance and another's.
    pub fn get_error(&self, other: &MonoPixel) -> (r: i32)
        ensures
            r == self.0 - other.0,
    {
        self.0 as i32 - other.0 as i32
    }

    /// The luminance of the pixel.
    pub fn get(&self) -> (r: u8)
        ensures
            r == self.0,
    {
        self.0
    }
}

} // verus!
