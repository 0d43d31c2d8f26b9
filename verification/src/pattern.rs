//! The two marker texts the filter removes, and the stream constants.

use vstd::prelude::*;

verus! {

/// Length in bytes of the shorter marker, the bare region-list key.
pub const PAT_A_LEN: usize = 29;

/// Length in bytes of the longer marker: the same key followed by `.set`.
pub const PAT_B_LEN: usize = 33;

/// Number of leading input bytes copied to the output verbatim before the
/// state machine starts inspecting the stream. The input format opens with
/// a fixed-size preamble that must never be touched.
pub const HEADER_SKIP: usize = 48412;

/// The byte `(`, which ends the preamble-like prefix and starts the tree body.
pub const OPEN_PAREN: u8 = 40;

/// The byte `=`, which confirms a marker as the key of a `key=value` construct.
pub const EQUALS_SIGN: u8 = 61;

/// The byte `,`, which ends a suppressed value.
pub const COMMA: u8 = 44;

/// The byte `}`, which ends a suppressed `{...}` set value.
pub const CLOSE_BRACE: u8 = 125;

/// The longer marker text, `Eight_loc_Rec_regions_removed.set`.
pub open spec fn pattern_b() -> Seq<u8> {
    seq![
        69u8, 105u8, 103u8, 104u8, 116u8, 95u8, 108u8, 111u8, 99u8, 95u8,
        82u8, 101u8, 99u8, 95u8, 114u8, 101u8, 103u8, 105u8, 111u8, 110u8,
        115u8, 95u8, 114u8, 101u8, 109u8, 111u8, 118u8, 101u8, 100u8, 46u8,
        115u8, 101u8, 116u8,
    ]
}

/// The shorter marker text, `Eight_loc_Rec_regions_removed`: by
/// construction a strict prefix of the longer one.
pub open spec fn pattern_a() -> Seq<u8> {
    pattern_b().take(PAT_A_LEN as int)
}

/// The shared-prefix invariant of the marker table: the shorter marker is
/// exactly the first `PAT_A_LEN` bytes of the longer one, and is strictly
/// shorter.
pub proof fn lemma_pattern_shape()
    ensures
        pattern_a().len() == PAT_A_LEN,
        pattern_b().len() == PAT_B_LEN,
        PAT_A_LEN < PAT_B_LEN,
        forall|i: int| 0 <= i < PAT_A_LEN ==> pattern_a()[i] == pattern_b()[i],
{
}

/// The longer marker as executable bytes; its first `PAT_A_LEN` bytes are
/// the shorter marker.
pub fn pattern_b_bytes() -> (v: Vec<u8>)
    ensures
        v@ == pattern_b(),
{
    let mut v: Vec<u8> = Vec::new();
    v.push(69u8);
    v.push(105u8);
    v.push(103u8);
    v.push(104u8);
    v.push(116u8);
    v.push(95u8);
    v.push(108u8);
    v.push(111u8);
    v.push(99u8);
    v.push(95u8);
    v.push(82u8);
    v.push(101u8);
    v.push(99u8);
    v.push(95u8);
    v.push(114u8);
    v.push(101u8);
    v.push(103u8);
    v.push(105u8);
    v.push(111u8);
    v.push(110u8);
    v.push(115u8);
    v.push(95u8);
    v.push(114u8);
    v.push(101u8);
    v.push(109u8);
    v.push(111u8);
    v.push(118u8);
    v.push(101u8);
    v.push(100u8);
    v.push(46u8);
    v.push(115u8);
    v.push(101u8);
    v.push(116u8);
    proof {
        assert(v@ =~= pattern_b());
    }
    v
}

} // verus!
