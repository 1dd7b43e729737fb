//! The pixels of application icons: the 32-bit bitmaps that the system
//! hands out, turned into top-down RGBA with a usable alpha channel.

use vstd::prelude::*;

verus! {

/// The size of an icon bitmap: negative sizes count as zero, and an empty
/// bitmap gives no icon.
pub fn icon_size(width: i32, height: i32) -> (r: Option<(u32, u32)>)
    ensures
        r == (if width > 0 && height > 0 {
            Some((width as u32, height as u32))
        } else {
            None
        }),
{
    if width > 0 && height > 0 {
        Some((width as u32, height as u32))
    } else {
        None
    }
}

/// Byte `i` of a buffer of 4-byte pixels after the first and third byte of
/// every whole pixel changed places (BGRA to RGBA).
pub open spec fn swapped_byte(p: Seq<u8>, i: int) -> u8 {
    if i % 4 == 0 && i + 4 <= p.len() {
        p[i + 2]
    } else if i % 4 == 2 && i + 2 <= p.len() {
        p[i - 2]
    } else {
        p[i]
    }
}

/// Turns BGRA pixels into RGBA pixels. Bytes after the last whole pixel
/// stay as they are.
pub fn swap_red_blue(pixels: &mut Vec<u8>)
    ensures
        final(pixels)@.len() == old(pixels)@.len(),
        forall|i: int| 0 <= i < old(pixels)@.len() ==> #[trigger] final(pixels)@[i] == swapped_byte(old(pixels)@, i),
{
    let ghost start = pixels@;
    let n = pixels.len();
    let mut k: usize = 0;
    while n - k >= 4
        invariant
            n == start.len(),
            pixels@.len() == n,
            k % 4 == 0,
            k <= n,
            forall|i: int| 0 <= i < k ==> #[trigger] pixels@[i] == swapped_byte(start, i),
            forall|i: int| k <= i < n ==> #[trigger] pixels@[i] == start[i],
        decreases n - k,
    {
        let b = pixels[k];
        let r = pixels[k + 2];
        pixels.set(k, r);
        pixels.set(k + 2, b);
        k = k + 4;
    }
    proof {
        assert forall|i: int| k <= i < n implies #[trigger] pixels@[i] == swapped_byte(start, i) by {
        }
    }
}

/// Some whole pixel of `p` has an alpha value other than zero.
pub open spec fn has_alpha(p: Seq<u8>) -> bool {
    exists|k: int| 0 <= k && 4 * k + 4 <= p.len() && #[trigger] alpha_at(p, k) != 0
}

/// The alpha value of pixel `k`.
pub open spec fn alpha_at(p: Seq<u8>, k: int) -> u8 {
    p[4 * k + 3]
}

/// Byte `i` of the pixels `p` after the icon mask `mask` gave them their
/// alpha. Icons with an alpha channel keep it. Older icons carry none: for
/// them, a set mask bit (a non-zero first byte of the mask pixel) means
/// "show the background", and without a mask the icon is fully opaque.
pub open spec fn masked_byte(p: Seq<u8>, mask: Option<Seq<u8>>, i: int) -> u8 {
    if has_alpha(p) || i % 4 != 3 || i + 1 > p.len() {
        p[i]
    } else {
        match mask {
            None => 255,
            Some(m) => if i + 1 <= m.len() {
                if m[i - 3] == 0 {
                    255
                } else {
                    0
                }
            } else {
                p[i]
            },
        }
    }
}

/// Whether some whole pixel has an alpha value other than zero.
fn any_alpha(pixels: &Vec<u8>) -> (b: bool)
    ensures
        b == has_alpha(pixels@),
{
    let n = pixels.len();
    let mut k: usize = 0;
    while n - k >= 4
        invariant
            n == pixels@.len(),
            k % 4 == 0,
            k <= n,
            forall|j: int| 0 <= j && 4 * j + 4 <= k ==> #[trigger] alpha_at(pixels@, j) == 0,
        decreases n - k,
    {
        if pixels[k + 3] != 0 {
            proof {
                let j = k as int / 4;
                assert(4 * j == k);
                assert(alpha_at(pixels@, j) != 0);
            }
            return true;
        }
        k = k + 4;
    }
    proof {
        assert forall|j: int| 0 <= j && 4 * j + 4 <= pixels@.len() implies #[trigger] alpha_at(pixels@, j) == 0 by {
            assert(4 * j + 4 <= k);
        }
    }
    false
}

/// Gives an icon without alpha channel the alpha of its mask (see
/// `masked_byte`); an icon that has an alpha channel stays as it is.
pub fn apply_mask(pixels: &mut Vec<u8>, mask: Option<&Vec<u8>>)
    ensures
        final(pixels)@.len() == old(pixels)@.len(),
        forall|i: int|
            0 <= i < old(pixels)@.len() ==> #[trigger] final(pixels)@[i] == masked_byte(
                old(pixels)@,
                match mask {
                    Some(m) => Some(m@),
                    None => None,
                },
                i,
            ),
{
    let ghost start = pixels@;
    let ghost mv = match mask {
        Some(m) => Some(m@),
        None => None,
    };
    if any_alpha(pixels) {
        return;
    }
    let n = pixels.len();
    let m_len = match mask {
        Some(m) => m.len(),
        None => n,
    };
    let mut k: usize = 0;
    while n - k >= 4 && m_len - k >= 4
        invariant
            n == start.len(),
            pixels@.len() == n,
            !has_alpha(start),
            mv == (match mask {
                Some(m) => Some(m@),
                None => None,
            }),
            m_len == (match mask {
                Some(m) => m@.len(),
                None => n as nat,
            }),
            k % 4 == 0,
            k <= n,
            k <= m_len,
            forall|i: int| 0 <= i < k ==> #[trigger] pixels@[i] == masked_byte(start, mv, i),
            forall|i: int| k <= i < n ==> #[trigger] pixels@[i] == start[i],
        decreases n - k,
    {
        let alpha: u8 = match mask {
            Some(m) => if m[k] == 0 {
                255
            } else {
                0
            },
            None => 255,
        };
        pixels.set(k + 3, alpha);
        k = k + 4;
    }
    proof {
        assert forall|i: int| k <= i < n implies #[trigger] pixels@[i] == masked_byte(start, mv, i) by {
            if i % 4 == 3 && i + 1 <= n {
                match mask {
                    Some(m) => {
                        assert(i + 1 > m@.len());
                    },
                    None => {
                        assert(false);
                    },
                }
            }
        }
    }
}

} // verus!
