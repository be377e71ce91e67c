use unipoly::field::Fe;
use unipoly::poly::UniPoly;
use unipoly::transcript::{Transcript, TranscriptEntry};

fn fe(x: u64) -> Fe {
    Fe::from_u64(x).unwrap()
}

fn expect_message(entry: &TranscriptEntry, want_label: &str, want_body: &str) {
    match entry {
        TranscriptEntry::Message { label, body } => {
            assert_eq!(label.as_str(), want_label);
            assert_eq!(body.as_str(), want_body);
        }
        TranscriptEntry::Scalar { .. } => panic!("expected a message entry"),
    }
}

fn expect_scalar(entry: &TranscriptEntry, want_label: &str, want_value: Fe) {
    match entry {
        TranscriptEntry::Scalar { label, value } => {
            assert_eq!(label.as_str(), want_label);
            assert_eq!(*value, want_value);
        }
        TranscriptEntry::Message { .. } => panic!("expected a scalar entry"),
    }
}

#[test]
fn test_append_to_transcript_order() {
    let mut transcript = Transcript::new();
    let poly = UniPoly::from_coeff(vec![fe(1), fe(3), fe(2)]);
    poly.append_to_transcript("round_poly", &mut transcript);

    assert_eq!(transcript.len(), 5);
    let entries = transcript.entries();
    expect_message(&entries[0], "round_poly", "UniPoly_begin");
    expect_scalar(&entries[1], "coeff", fe(1));
    expect_scalar(&entries[2], "coeff", fe(3));
    expect_scalar(&entries[3], "coeff", fe(2));
    expect_message(&entries[4], "round_poly", "UniPoly_end");
}

#[test]
fn test_append_empty_polynomial() {
    let mut transcript = Transcript::new();
    let poly = UniPoly::from_coeff(Vec::new());
    poly.append_to_transcript("round_poly", &mut transcript);
    assert_eq!(transcript.len(), 2);
    let entries = transcript.entries();
    expect_message(&entries[0], "round_poly", "UniPoly_begin");
    expect_message(&entries[1], "round_poly", "UniPoly_end");
}

#[test]
fn test_appends_accumulate_in_order() {
    let mut transcript = Transcript::new();
    transcript.append_message("proto", "start");
    transcript.append_scalar("claim", &fe(42));
    assert_eq!(transcript.len(), 2);
    let entries = transcript.entries();
    expect_message(&entries[0], "proto", "start");
    expect_scalar(&entries[1], "claim", fe(42));
}
