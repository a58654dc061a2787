//! Bytes shown as text.

use vstd::prelude::*;
use vstd::utf8::{decode_utf8, decode_utf8_split, is_char_boundary_iff_not_is_continuation_byte, is_char_boundary_start_end_of_seq, valid_utf8, valid_utf8_split};

verus! {

use vstd::utf8::{is_char_boundary, is_continuation_byte};

/// The text that bytes are shown as.
pub uninterp spec fn lossy_text(bytes: Seq<u8>) -> Seq<char>;

/// Calls `String::from_utf8_lossy` of the standard library on the first
/// `end` bytes. Trusted: the result depends on these bytes alone and is named
/// [`lossy_text`]; bytes that are valid UTF-8 are shown as what they encode.
#[verifier::external_body]
pub(crate) fn from_utf8_lossy(bytes: &Vec<u8>, end: usize) -> (r: String)
    requires
        end <= bytes@.len(),
    ensures
        r@ == lossy_text(bytes@.take(end as int)),
        valid_utf8(bytes@.take(end as int)) ==> r@ == decode_utf8(bytes@.take(end as int)),
{
    String::from_utf8_lossy(&bytes[..end]).into_owned()
}

/// No code point is split at the position, as far as the byte there tells.
pub open spec fn may_cut(bytes: Seq<u8>, i: int) -> bool {
    i == 0 || i >= bytes.len() || !is_continuation_byte(bytes[i])
}

/// The last position up to `max` at which the bytes may be cut.
pub open spec fn cut_position(bytes: Seq<u8>, max: int) -> int
    decreases max,
{
    if max <= 0 || may_cut(bytes, max) {
        max
    } else {
        cut_position(bytes, max - 1)
    }
}

/// The last position up to `max` at which the bytes may be cut.
pub fn find_cut(bytes: &Vec<u8>, max: usize) -> (r: usize)
    ensures
        r == cut_position(bytes@, max as int),
        r <= max,
{
    let mut cut: usize = max;
    while cut > 0 && !(cut >= bytes.len() || bytes[cut] < 0x80 || bytes[cut] > 0xbf)
        invariant
            cut <= max,
            cut_position(bytes@, max as int) == cut_position(bytes@, cut as int),
        decreases cut,
    {
        cut = cut - 1;
    }
    cut
}

/// Cutting text never splits a character: what is left encodes the beginning
/// of the text.
pub proof fn cuts_keep_whole_characters(bytes: Seq<u8>, max: int)
    requires
        valid_utf8(bytes),
        0 <= max <= bytes.len(),
    ensures
        0 <= cut_position(bytes, max) <= max,
        valid_utf8(bytes.take(cut_position(bytes, max))),
        decode_utf8(bytes.take(cut_position(bytes, max))).is_prefix_of(decode_utf8(bytes)),
    decreases max,
{
    if max > 0 && !may_cut(bytes, max) {
        cuts_keep_whole_characters(bytes, max - 1);
    } else {
        is_char_boundary_start_end_of_seq(bytes);
        if 0 < max < bytes.len() {
            is_char_boundary_iff_not_is_continuation_byte(bytes, max);
        }
        valid_utf8_split(bytes, max);
        decode_utf8_split(bytes, max);
        assert(bytes.take(max) =~= bytes.subrange(0, max));
    }
}

} // verus!
