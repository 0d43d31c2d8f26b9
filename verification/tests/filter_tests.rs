use clean_tree::filter::{clean_tree, scrub_bytes, CleanError};
use clean_tree::machine::{state_eq, Scrubber, State};
use clean_tree::pattern::{pattern_b_bytes, HEADER_SKIP, PAT_A_LEN, PAT_B_LEN};

const MARKER: &[u8] = b"Eight_loc_Rec_regions_removed";
const MARKER_SET: &[u8] = b"Eight_loc_Rec_regions_removed.set";

#[test]
fn pattern_table_matches_marker_text() {
    let pat = pattern_b_bytes();
    assert_eq!(pat.as_slice(), MARKER_SET);
    assert_eq!(&pat[..PAT_A_LEN], MARKER);
    assert_eq!(pat.len(), PAT_B_LEN);
}

#[test]
fn state_eq_same_variant() {
    assert!(state_eq(&State::Start, &State::Start));
    assert!(state_eq(&State::AwaitingBracket, &State::AwaitingBracket));
    assert!(state_eq(&State::NoWrite2, &State::NoWrite2));
}

#[test]
fn state_eq_different_variants() {
    assert!(!state_eq(&State::Start, &State::Searching));
    assert!(!state_eq(&State::NoWrite1, &State::NoWrite2));
    assert!(!state_eq(&State::AwaitingBracket, &State::Start));
}

#[test]
fn passthrough_without_marker() {
    let input = b"(taxon_a:0.5,taxon_b:1.25);".to_vec();
    assert_eq!(scrub_bytes(&input), input);
}

#[test]
fn mismatch_replay_preserves_partial_match() {
    // Matches the first 7 marker bytes, then diverges: all bytes replayed.
    let input = b"(Eight_lXyz".to_vec();
    assert_eq!(scrub_bytes(&input), input);
}

#[test]
fn removal_key_value_form() {
    let input = b"(a,Eight_loc_Rec_regions_removed=\"ACGT\",b)".to_vec();
    assert_eq!(scrub_bytes(&input), b"(a,b)".to_vec());
}

#[test]
fn removal_set_form() {
    // Commas inside the braces do not end the suppression.
    let input = b"(x,Eight_loc_Rec_regions_removed.set={X,Y,Z},y)".to_vec();
    assert_eq!(scrub_bytes(&input), b"(x,y)".to_vec());
}

#[test]
fn removal_set_form_consumes_through_following_comma() {
    let input = b"(Eight_loc_Rec_regions_removed.set={1}tail,end)".to_vec();
    assert_eq!(scrub_bytes(&input), b"(end)".to_vec());
}

#[test]
fn pre_bracket_passthrough() {
    let input = b"header text ( ACTG )".to_vec();
    assert_eq!(scrub_bytes(&input), input);
}

#[test]
fn marker_before_bracket_passes_verbatim() {
    let input = b"Eight_loc_Rec_regions_removed=1(z)".to_vec();
    assert_eq!(scrub_bytes(&input), input);
}

#[test]
fn idempotent_after_one_pass() {
    let input = b"(a,Eight_loc_Rec_regions_removed=\"ACGT\",b)".to_vec();
    let once = scrub_bytes(&input);
    let twice = scrub_bytes(&once);
    assert_eq!(twice, once);
}

#[test]
fn eof_during_candidate_match_truncates() {
    let input = b"(abcEight_loc".to_vec();
    assert_eq!(scrub_bytes(&input), b"(abc".to_vec());
}

#[test]
fn eof_during_value_suppression_truncates() {
    let input = b"(Eight_loc_Rec_regions_removed=XYZ".to_vec();
    assert_eq!(scrub_bytes(&input), b"(".to_vec());
}

#[test]
fn eof_during_set_suppression_truncates() {
    let input = b"(Eight_loc_Rec_regions_removed.set={A,B".to_vec();
    assert_eq!(scrub_bytes(&input), b"(".to_vec());
}

#[test]
fn near_marker_with_wrong_last_byte_is_kept() {
    let input = b"(Eight_loc_Rec_regions_removes=1,x)".to_vec();
    assert_eq!(scrub_bytes(&input), input);
}

#[test]
fn marker_without_equals_is_kept() {
    let input = b"(Eight_loc_Rec_regions_removedX,1)".to_vec();
    assert_eq!(scrub_bytes(&input), input);
}

#[test]
fn set_marker_without_equals_is_kept() {
    let input = b"(Eight_loc_Rec_regions_removed.setX)".to_vec();
    assert_eq!(scrub_bytes(&input), input);
}

#[test]
fn streaming_scrubber_matches_whole_stream_filter() {
    let input = b"(a,Eight_loc_Rec_regions_removed.set={X,Y},Eight_lZ,b)".to_vec();
    let mut scrubber = Scrubber::new();
    let mut streamed: Vec<u8> = Vec::new();
    for c in input.iter() {
        scrubber.process_byte(*c, &mut streamed);
    }
    assert_eq!(streamed, scrub_bytes(&input));
}

#[test]
fn clean_tree_copies_header_verbatim() {
    // A preamble made of marker-like bytes is still copied untouched.
    let mut input = vec![b'E'; HEADER_SKIP];
    input.extend_from_slice(b"(a,Eight_loc_Rec_regions_removed=\"A\",b)");
    let mut expected = vec![b'E'; HEADER_SKIP];
    expected.extend_from_slice(b"(a,b)");
    assert_eq!(clean_tree(&input), Ok(expected));
}

#[test]
fn clean_tree_exact_header_length() {
    let input = vec![b'x'; HEADER_SKIP];
    assert_eq!(clean_tree(&input), Ok(input.clone()));
}

#[test]
fn clean_tree_rejects_short_input() {
    let input = vec![b'x'; HEADER_SKIP - 1];
    assert_eq!(clean_tree(&input), Err(CleanError::HeaderTooShort));
}
