use vstd::prelude::*;

verus! {

/// The red, green and blue bytes of a color packed as `0x00RRGGBB`.
pub open spec fn unpacked(c: u32) -> (u8, u8, u8) {
    (((c / 0x10000) % 0x100) as u8, ((c / 0x100) % 0x100) as u8, (c % 0x100) as u8)
}

/// The `0x00RRGGBB` packing of three color bytes.
pub open spec fn packed(r: u8, g: u8, b: u8) -> u32 {
    (r * 0x10000 + g * 0x100 + b) as u32
}

/// Splits a packed `0x00RRGGBB` color into its red, green and blue bytes.
pub fn u8_from_u32(c: u32) -> (r: (u8, u8, u8))
    ensures
        r == unpacked(c),
{
    let r = ((c & 0xFF0000u32) >> 16u32) as u8;
    let g = ((c & 0x00FF00u32) >> 8u32) as u8;
    let b = (c & 0x0000FFu32) as u8;
    assert(((c & 0xFF0000u32) >> 16u32) == (c / 0x10000) % 0x100) by (bit_vector);
    assert(((c & 0x00FF00u32) >> 8u32) == (c / 0x100) % 0x100) by (bit_vector);
    assert((c & 0x0000FFu32) == c % 0x100) by (bit_vector);
    (r, g, b)
}

/// Packs red, green and blue bytes as `0x00RRGGBB`.
pub fn u32_from_u8_rgb(r: u8, g: u8, b: u8) -> (c: u32)
    ensures
        c == packed(r, g, b),
        c < 0x100_0000,
{
    let (r32, g32, b32) = (r as u32, g as u32, b as u32);
    assert(r32 < 0x100 && g32 < 0x100 && b32 < 0x100);
    assert((r32 << 16u32) | (g32 << 8u32) | b32 == r32 * 0x10000 + g32 * 0x100 + b32) by (bit_vector)
        requires
            r32 < 0x100 && g32 < 0x100 && b32 < 0x100,
    ;
    (r32 << 16u32) | (g32 << 8u32) | b32
}

/// Packing three bytes and splitting the result gives the same three bytes back.
pub proof fn lemma_pack_unpack(r: u8, g: u8, b: u8)
    ensures
        unpacked(packed(r, g, b)) == (r, g, b),
{
    let c = r * 0x10000 + g * 0x100 + b;
    assert((c / 0x10000) % 0x100 == r) by (nonlinear_arith)
        requires
            c == r * 0x10000 + g * 0x100 + b, 0 <= r < 0x100, 0 <= g < 0x100, 0 <= b < 0x100,
    ;
    assert((c / 0x100) % 0x100 == g) by (nonlinear_arith)
        requires
            c == r * 0x10000 + g * 0x100 + b, 0 <= r < 0x100, 0 <= g < 0x100, 0 <= b < 0x100,
    ;
    assert(c % 0x100 == b) by (nonlinear_arith)
        requires
            c == r * 0x10000 + g * 0x100 + b, 0 <= r < 0x100, 0 <= g < 0x100, 0 <= b < 0x100,
    ;
}

/// Splitting a color whose top byte is clear and packing the parts gives it back.
pub proof fn lemma_unpack_pack(c: u32)
    requires
        c < 0x100_0000,
    ensures
        packed(unpacked(c).0, unpacked(c).1, unpacked(c).2) == c,
{
    assert(((c / 0x10000) % 0x100) * 0x10000 + ((c / 0x100) % 0x100) * 0x100 + c % 0x100 == c)
        by (nonlinear_arith)
        requires
            0 <= c < 0x100_0000,
    ;
}

} // verus!
