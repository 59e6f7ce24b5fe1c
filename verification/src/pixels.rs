use vstd::prelude::*;

verus! {

use crate::color::Rgba;

/// The pixel at index `i` of a flat RGBA byte buffer, four bytes per pixel
/// in r, g, b, a order.
pub open spec fn pixel_at(bytes: Seq<u8>, i: int) -> Rgba {
    Rgba { r: bytes[4 * i], g: bytes[4 * i + 1], b: bytes[4 * i + 2], a: bytes[4 * i + 3] }
}

/// Decodes a flat RGBA byte buffer into pixels; `None` exactly when the
/// length is not a multiple of four.
#[verifier::loop_isolation(false)]
pub fn pixels_from_bytes(bytes: &Vec<u8>) -> (r: Option<Vec<Rgba>>)
    ensures
        match r {
            Some(ps) => bytes@.len() % 4 == 0 && ps@.len() == bytes@.len() / 4
                && forall|i: int| 0 <= i < ps@.len() ==> #[trigger] ps@[i] == pixel_at(bytes@, i),
            None => bytes@.len() % 4 != 0,
        },
{
    if bytes.len() % 4 != 0 {
        return None;
    }
    let n = bytes.len() / 4;
    let mut ps: Vec<Rgba> = Vec::new();
    let mut i: usize = 0;
    while i < n
        invariant
            0 <= i <= n,
            n == bytes@.len() / 4,
            bytes@.len() % 4 == 0,
            ps@.len() == i,
            forall|j: int| 0 <= j < i ==> #[trigger] ps@[j] == pixel_at(bytes@, j),
        decreases n - i,
    {
        let p = Rgba {
            r: bytes[4 * i],
            g: bytes[4 * i + 1],
            b: bytes[4 * i + 2],
            a: bytes[4 * i + 3],
        };
        ps.push(p);
        i += 1;
    }
    Some(ps)
}

/// Encodes pixels back into a flat RGBA byte buffer, four bytes per pixel.
#[verifier::loop_isolation(false)]
pub fn bytes_from_pixels(ps: &Vec<Rgba>) -> (r: Vec<u8>)
    ensures
        r@.len() == 4 * ps@.len(),
        forall|i: int| 0 <= i < ps@.len() ==> pixel_at(r@, i) == #[trigger] ps@[i],
{
    let mut r: Vec<u8> = Vec::new();
    let mut i: usize = 0;
    while i < ps.len()
        invariant
            0 <= i <= ps@.len(),
            r@.len() == 4 * i,
            forall|j: int| 0 <= j < i ==> pixel_at(r@, j) == #[trigger] ps@[j],
        decreases ps@.len() - i,
    {
        let ghost r0 = r@;
        let p = ps[i];
        r.push(p.r);
        r.push(p.g);
        r.push(p.b);
        r.push(p.a);
        proof {
            assert forall|j: int| 0 <= j < i + 1 implies pixel_at(r@, j) == #[trigger] ps@[j] by {
                if j < i {
                    assert(r@[4 * j] == r0[4 * j]);
                    assert(r@[4 * j + 1] == r0[4 * j + 1]);
                    assert(r@[4 * j + 2] == r0[4 * j + 2]);
                    assert(r@[4 * j + 3] == r0[4 * j + 3]);
                } else {
                    assert(r@[4 * j] == p.r);
                    assert(r@[4 * j + 1] == p.g);
                    assert(r@[4 * j + 2] == p.b);
                    assert(r@[4 * j + 3] == p.a);
                }
            }
        }
        i += 1;
    }
    r
}

} // verus!
