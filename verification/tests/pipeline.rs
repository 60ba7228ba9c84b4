//! Hide and extract end to end, on in-memory file contents: the tests append
//! the planned chunks themselves and hand the results back, exactly as the
//! command line around the library does with real files.

use steg::message::extract_message;
use steg::message::hide_message;
use steg::message::ExtractError;

/// Appends chunk `i` of the plan to file `i`, as the caller of `hide_message`
/// is meant to.
fn append_chunks(files: &mut Vec<Vec<u8>>, chunks: &Vec<Vec<u8>>) {
    for (i, chunk) in chunks.iter().enumerate() {
        files[i].extend_from_slice(chunk);
    }
}

#[test]
fn round_trip_recovers_message() {
    let password = b"secret";
    let message = b"attack at dawn".to_vec();
    let mut files: Vec<Vec<u8>> = vec![Vec::new(); 30];
    let plan = hide_message(password, &message, files.len(), 3);
    assert_eq!(plan.leftover, 0);
    append_chunks(&mut files, &plan.chunks);
    let recovered = extract_message(password, &files, Some(plan.chunks.len()), 3);
    assert_eq!(recovered.unwrap(), message);
}

#[test]
fn round_trip_with_empty_files_and_no_count() {
    // Files that got no chunk stay empty, contribute nothing to collection,
    // and extraction works without a file count.
    let password = b"secret";
    let message = b"hi".to_vec();
    let mut files: Vec<Vec<u8>> = vec![Vec::new(); 40];
    let plan = hide_message(password, &message, files.len(), 1);
    assert_eq!(plan.leftover, 0);
    append_chunks(&mut files, &plan.chunks);
    let recovered = extract_message(password, &files, None, 1);
    assert_eq!(recovered.unwrap(), message);
}

#[test]
fn round_trip_leaves_prior_content_alone() {
    let password = b"pw";
    let message = b"buried".to_vec();
    let mut files: Vec<Vec<u8>> = (0..40u8).map(|i| vec![i, i, i]).collect();
    let before = files.clone();
    let plan = hide_message(password, &message, files.len(), 2);
    assert_eq!(plan.leftover, 0);
    append_chunks(&mut files, &plan.chunks);
    for (old, new) in before.iter().zip(files.iter()) {
        assert_eq!(&new[..old.len()], &old[..]);
    }
    let recovered = extract_message(password, &files, Some(plan.chunks.len()), 2);
    assert_eq!(recovered.unwrap(), message);
}

#[test]
fn round_trip_empty_message() {
    let password = b"pw";
    let message = Vec::new();
    let mut files: Vec<Vec<u8>> = vec![Vec::new(); 32];
    let plan = hide_message(password, &message, files.len(), 1);
    assert_eq!(plan.leftover, 0);
    append_chunks(&mut files, &plan.chunks);
    let recovered = extract_message(password, &files, Some(plan.chunks.len()), 1);
    assert_eq!(recovered.unwrap(), message);
}

#[test]
fn wrong_password_is_rejected() {
    let password = b"right";
    let message = b"attack at dawn".to_vec();
    let mut files: Vec<Vec<u8>> = vec![Vec::new(); 40];
    let plan = hide_message(password, &message, files.len(), 2);
    assert_eq!(plan.leftover, 0);
    append_chunks(&mut files, &plan.chunks);
    let outcome = extract_message(b"wrong", &files, Some(plan.chunks.len()), 2);
    assert!(outcome.is_err());
}

#[test]
fn shortfall_writes_what_fits_and_reports_the_rest() {
    // Password "pw", message "hi", four bytes per file, three empty files:
    // the two-byte message encrypts to one 16-byte block, so the encoded text
    // is 32 characters and needs eight files. Only three are at hand: all
    // three are used, twenty encoded bytes find no file, and extraction from
    // the truncated remainder cannot succeed.
    let password = b"pw";
    let message = b"hi".to_vec();
    let mut files: Vec<Vec<u8>> = vec![Vec::new(); 3];
    let plan = hide_message(password, &message, files.len(), 4);
    assert_eq!(plan.chunks.len(), 3);
    assert_eq!(plan.leftover, 20);
    append_chunks(&mut files, &plan.chunks);
    let outcome = extract_message(password, &files, Some(3), 4);
    assert!(outcome.is_err());
}

#[test]
fn chunk_boundary_counts() {
    // The encoded text of a one-block message is 32 characters: with four
    // bytes per file exactly eight files are used and nothing is padded;
    // with three, eleven files are used and the last chunk is padded.
    let password = b"pw";
    let message = b"hi".to_vec();
    let num_files = 20;
    let plan = hide_message(password, &message, num_files, 4);
    assert_eq!(plan.chunks.len(), 8);
    assert_eq!(plan.leftover, 0);
    for chunk in &plan.chunks {
        assert!(chunk.iter().all(|&b| b != 0));
    }
    let plan3 = hide_message(password, &message, num_files, 3);
    assert_eq!(plan3.chunks.len(), 11);
    assert_eq!(plan3.leftover, 0);
    let last = plan3.chunks.last().unwrap();
    assert_ne!(last[0], 0);
    assert_ne!(last[1], 0);
    assert_eq!(last[2], 0);
}

#[test]
fn garbage_that_is_no_hex_gives_encoding_error() {
    let files: Vec<Vec<u8>> = vec![vec![b'g'], vec![b'g']];
    let outcome = extract_message(b"pw", &files, None, 1);
    assert_eq!(outcome.unwrap_err(), ExtractError::InvalidEncoding);
}

#[test]
fn odd_hex_length_gives_encoding_error() {
    let files: Vec<Vec<u8>> = vec![vec![b'a']];
    let outcome = extract_message(b"pw", &files, None, 1);
    assert_eq!(outcome.unwrap_err(), ExtractError::InvalidEncoding);
}

#[test]
fn valid_hex_that_is_no_ciphertext_gives_padding_error() {
    // 32 hexadecimal characters decode to a 16-byte block that the key
    // all but surely rejects as padding.
    let files: Vec<Vec<u8>> = (0..32).map(|_| vec![b'0']).collect();
    let outcome = extract_message(b"pw", &files, None, 1);
    assert_eq!(outcome.unwrap_err(), ExtractError::InvalidPadding);
}
