//! The allow-list of recognized raster-image formats.
//!
//! Discovery walks the source tree outside the library and asks, per file,
//! whether its extension names a recognized format; the match is
//! case-insensitive.

use vstd::prelude::*;

verus! {

/// ASCII lower-casing of one byte.
pub open spec fn ascii_lower(b: u8) -> u8 {
    if 65 <= b && b <= 90 {
        (b + 32) as u8
    } else {
        b
    }
}

/// ASCII lower-casing of a byte string.
pub open spec fn lower_seq(s: Seq<u8>) -> Seq<u8> {
    s.map_values(|b: u8| ascii_lower(b))
}

/// Whether an extension, lower-cased, is `jpg`, `jpeg` or `png`.
pub open spec fn is_image_ext(s: Seq<u8>) -> bool {
    ||| lower_seq(s) == seq![106u8, 112u8, 103u8]
    ||| lower_seq(s) == seq![106u8, 112u8, 101u8, 103u8]
    ||| lower_seq(s) == seq![112u8, 110u8, 103u8]
}

fn lower_byte(b: u8) -> (r: u8)
    ensures
        r == ascii_lower(b),
{
    if 65 <= b && b <= 90 {
        b + 32
    } else {
        b
    }
}

/// Whether a file extension, given as bytes, names a recognized image
/// format, case-insensitively.
pub fn recognized_extension(ext: &Vec<u8>) -> (r: bool)
    ensures
        r == is_image_ext(ext@),
{
    let mut low: Vec<u8> = Vec::new();
    let mut i: usize = 0;
    while i < ext.len()
        invariant
            0 <= i <= ext@.len(),
            low@ =~= lower_seq(ext@.take(i as int)),
        decreases ext@.len() - i,
    {
        low.push(lower_byte(ext[i]));
        proof {
            assert(ext@.take(i as int + 1).drop_last() =~= ext@.take(i as int));
            assert(low@ =~= lower_seq(ext@.take(i as int + 1)));
        }
        i = i + 1;
    }
    proof {
        assert(ext@.take(ext@.len() as int) =~= ext@);
    }
    let r = (low.len() == 3 && low[0] == 106 && low[1] == 112 && low[2] == 103) || (low.len() == 4
        && low[0] == 106 && low[1] == 112 && low[2] == 101 && low[3] == 103) || (low.len() == 3
        && low[0] == 112 && low[1] == 110 && low[2] == 103);
    proof {
        if r {
            assert(low@ =~= seq![106u8, 112u8, 103u8] || low@ =~= seq![
                106u8,
                112u8,
                101u8,
                103u8,
            ] || low@ =~= seq![112u8, 110u8, 103u8]);
        } else {
            assert(low@ != seq![106u8, 112u8, 103u8]) by {
                if low@ == seq![106u8, 112u8, 103u8] {
                    assert(low@[0] == 106 && low@[1] == 112 && low@[2] == 103);
                }
            }
            assert(low@ != seq![106u8, 112u8, 101u8, 103u8]) by {
                if low@ == seq![106u8, 112u8, 101u8, 103u8] {
                    assert(low@[0] == 106 && low@[1] == 112 && low@[2] == 101 && low@[3] == 103);
                }
            }
            assert(low@ != seq![112u8, 110u8, 103u8]) by {
                if low@ == seq![112u8, 110u8, 103u8] {
                    assert(low@[0] == 112 && low@[1] == 110 && low@[2] == 103);
                }
            }
        }
    }
    r
}

} // verus!
