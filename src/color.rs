use vstd::prelude::*;

verus! {

/// An RGBA colour packed into 32 bits: red in the lowest byte, alpha in the
/// highest.
#[derive(Clone, Copy, Debug, PartialEq, Eq, Structural, Hash)]
pub struct Color(pub u32);

/// The byte of `v` that starts at bit `8 * k`.
pub open spec fn channel(v: u32, k: nat) -> u8 {
    ((v as nat / pow256(k)) % 256) as u8
}

pub open spec fn pow256(k: nat) -> nat
    decreases k,
{
    if k == 0 {
        1
    } else {
        256 * pow256((k - 1) as nat)
    }
}

impl Color {
    /// The colour with the given channels.
    pub fn from_rgba(r: u8, g: u8, b: u8, a: u8) -> (c: Color)
        ensures
            c.0 == r + 256 * g + 65536 * b + 16777216 * a,
    {
        let r32 = r as u32;
        let g32 = g as u32;
        let b32 = b as u32;
        let a32 = a as u32;
        let v = r32 | (g32 << 8u32) | (b32 << 16u32) | (a32 << 24u32);
        assert(v == r32 + 256 * g32 + 65536 * b32 + 16777216 * a32) by (bit_vector)
            requires
                r32 < 256,
                g32 < 256,
                b32 < 256,
                a32 < 256,
                v == r32 | (g32 << 8u32) | (b32 << 16u32) | (a32 << 24u32),
        ;
        Color(v)
    }

    pub fn r(&self) -> (r: u8)
        ensures
            r == channel(self.0, 0),
    {
        let v = self.0;
        assert((v & 0xff) == v % 256) by (bit_vector);
        assert(pow256(0) == 1);
        (v & 0xFF) as u8
    }

    pub fn g(&self) -> (g: u8)
        ensures
            g == channel(self.0, 1),
    {
        let v = self.0;
        assert(((v >> 8u32) & 0xff) == (v / 256) % 256) by (bit_vector);
        assert(pow256(1) == 256) by {
            reveal_with_fuel(pow256, 2);
        }
        ((v >> 8) & 0xFF) as u8
    }

    pub fn b(&self) -> (b: u8)
        ensures
            b == channel(self.0, 2),
    {
        let v = self.0;
        assert(((v >> 16u32) & 0xff) == (v / 65536) % 256) by (bit_vector);
        assert(pow256(2) == 65536) by {
            reveal_with_fuel(pow256, 3);
        }
        ((v >> 16) & 0xFF) as u8
    }

    pub fn a(&self) -> (a: u8)
        ensures
            a == channel(self.0, 3),
    {
        let v = self.0;
        assert(((v >> 24u32) & 0xff) == (v / 16777216) % 256) by (bit_vector);
        assert(pow256(3) == 16777216) by {
            reveal_with_fuel(pow256, 4);
        }
        ((v >> 24) & 0xFF) as u8
    }
}

} // verus!
