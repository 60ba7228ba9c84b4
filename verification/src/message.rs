//! The whole pipeline. Hiding derives the key, encrypts the message, spells
//! the ciphertext as hexadecimal text and plans its distribution over the
//! files; extraction collects the trailing chunks back, strips the fill
//! byte, decodes and decrypts. The round-trip law at the bottom ties the two
//! ends together.

use vstd::prelude::*;
use crate::collect::collect_payload;
use crate::collect::collected_payload_limited;
use crate::collect::file_limit;
use crate::collect::lemma_strip_fill_add;
use crate::collect::lemma_strip_fill_all;
use crate::collect::lemma_strip_fill_none;
use crate::collect::strip_fill;
use crate::collect::strip_fill_spec;
use crate::collect::tail_chunk;
use crate::collect::tails_concat;
use crate::crypto::ciphertext_of;
use crate::crypto::decrypt;
use crate::crypto::decrypted_of;
use crate::crypto::derive_key;
use crate::crypto::encrypt;
use crate::crypto::key_of;
use crate::distribute::chunk_at;
use crate::distribute::full_chunks;
use crate::distribute::leftover_bytes;
use crate::distribute::needed_chunks;
use crate::distribute::plan_distribution;
use crate::distribute::used_chunks;
use crate::distribute::written_byte;
use crate::distribute::DistributionPlan;
use crate::distribute::lemma_capacity_shortfall;
use crate::hexcode::hex_decode;
use crate::hexcode::hex_decoding;
use crate::hexcode::hex_encode;
use crate::hexcode::hex_encoding;
use crate::hexcode::lemma_hex_round_trip;
use crate::params::FILL_BYTE;

verus! {

/// The file contents after hiding: chunk `i` appended to file `i`, the files
/// past the last chunk untouched.
pub open spec fn after_hide(old_contents: Seq<Seq<u8>>, chunks: Seq<Seq<u8>>) -> Seq<Seq<u8>> {
    Seq::new(
        old_contents.len(),
        |i: int|
            if i < chunks.len() {
                old_contents[i] + chunks[i]
            } else {
                old_contents[i]
            },
    )
}

/// What extraction makes of the first `limit` file contents under a key:
/// collect the trailing chunks, reverse, strip the fill byte, decode the
/// hexadecimal text, decrypt — `None` as soon as one of the last two steps
/// fails.
pub open spec fn extract_outcome(
    key: Seq<u8>,
    contents: Seq<Seq<u8>>,
    limit: int,
    chunk_size: int,
) -> Option<Seq<u8>> {
    let stripped = strip_fill_spec(collected_payload_limited(contents, limit, chunk_size));
    match hex_decoding(stripped) {
        Some(ciphertext) => decrypted_of(key, ciphertext),
        None => None,
    }
}

/// Why extraction failed. Both conditions signal the same thing to the user
/// — wrong password or wrong parameters — but they arise at different steps.
#[derive(Clone, Copy, Debug, PartialEq, Eq, Structural)]
pub enum ExtractError {
    /// The collected bytes, fill bytes stripped, are no hexadecimal text.
    InvalidEncoding,
    /// The text decoded, but decryption found no well-formed padding.
    InvalidPadding,
}

/// The encoded form of a message under a password: the ciphertext spelled as
/// lowercase hexadecimal text; the actual payload distributed over the files.
pub open spec fn encoded_message(password: Seq<u8>, message: Seq<u8>) -> Seq<u8> {
    hex_encoding(ciphertext_of(key_of(password), message))
}

/// Hides the message: derives the key from the password, encrypts, encodes,
/// and plans one chunk of `bytes_per_file` bytes per file for up to
/// `num_files` files. The caller appends chunk `i` to file `i`. A zero
/// leftover means every encoded byte found a file, and then extraction from
/// the appended-to files under the same password recovers the message,
/// whatever the files held before.
pub fn hide_message(password: &[u8], message: &[u8], num_files: usize, bytes_per_file: usize) -> (out:
    DistributionPlan)
    requires
        bytes_per_file >= 1,
    ensures
        ({
            let enc = encoded_message(password@, message@);
            let l = enc.len() as int;
            let cs = bytes_per_file as int;
            &&& out.chunks@.len() == used_chunks(l, num_files as int, cs)
            &&& forall|c: int|
                0 <= c < out.chunks@.len() ==> (#[trigger] out.chunks@[c])@ == chunk_at(enc, c, cs)
            &&& out.leftover == leftover_bytes(l, num_files as int, cs)
            &&& (out.leftover == 0 <==> num_files as int >= needed_chunks(l, cs))
            &&& (out.leftover == 0 ==> forall|old_contents: Seq<Seq<u8>>|
                old_contents.len() >= needed_chunks(l, cs) ==> #[trigger] extract_outcome(
                    key_of(password@),
                    after_hide(old_contents, full_chunks(enc, cs)),
                    needed_chunks(l, cs),
                    cs,
                ) == Some(message@))
        }),
{
    let key = derive_key(password);
    let ciphertext = encrypt(key.as_slice(), message);
    let encoded = hex_encode(&ciphertext);
    let plan = plan_distribution(&encoded, num_files, bytes_per_file);
    proof {
        let enc = encoded_message(password@, message@);
        let l = enc.len() as int;
        let cs = bytes_per_file as int;
        let needed = needed_chunks(l, cs);
        if num_files as int >= needed {
            lemma_needed_capacity_suffices(l, cs);
            assert(leftover_bytes(l, num_files as int, cs) == 0);
        } else {
            lemma_capacity_shortfall(l, num_files as int, cs);
        }
        if plan.leftover == 0 {
            assert forall|old_contents: Seq<Seq<u8>>|
                old_contents.len() >= needed implies #[trigger] extract_outcome(
                key_of(password@),
                after_hide(old_contents, full_chunks(enc, cs)),
                needed,
                cs,
            ) == Some(message@) by {
                lemma_round_trip(password@, message@, old_contents, cs);
            }
        }
    }
    plan
}

/// Extracts the hidden message from the file contents: collects the trailing
/// `bytes_per_file` bytes of the first `num_files` files (all of them when no
/// count is given), undoes the distribution order, strips the fill byte,
/// decodes and decrypts under the key the password derives. Fails with
/// `InvalidEncoding` exactly when the stripped bytes are no hexadecimal
/// text, and with `InvalidPadding` exactly when they are but decryption
/// rejects the result.
pub fn extract_message(
    password: &[u8],
    contents: &Vec<Vec<u8>>,
    num_files: Option<usize>,
    bytes_per_file: usize,
) -> (r: Result<Vec<u8>, ExtractError>)
    ensures
        ({
            let limit = file_limit(num_files, contents.deep_view().len() as int);
            let outcome = extract_outcome(
                key_of(password@),
                contents.deep_view(),
                limit,
                bytes_per_file as int,
            );
            let stripped = strip_fill_spec(
                collected_payload_limited(contents.deep_view(), limit, bytes_per_file as int),
            );
            &&& (r matches Ok(m) ==> outcome == Some(m@))
            &&& (r is Ok <==> outcome is Some)
            &&& (r == Err::<Vec<u8>, ExtractError>(ExtractError::InvalidEncoding) <==> hex_decoding(
                stripped,
            ) is None)
            &&& (r == Err::<Vec<u8>, ExtractError>(ExtractError::InvalidPadding) <==> (hex_decoding(
                stripped,
            ) matches Some(ciphertext) && decrypted_of(key_of(password@), ciphertext) is None))
        }),
{
    let key = derive_key(password);
    let raw = collect_payload(contents, num_files, bytes_per_file);
    let stripped = strip_fill(&raw);
    let ciphertext = match hex_decode(&stripped) {
        Ok(ciphertext) => ciphertext,
        Err(_) => {
            return Err(ExtractError::InvalidEncoding);
        },
    };
    match decrypt(key.as_slice(), ciphertext.as_slice()) {
        Ok(plaintext) => Ok(plaintext),
        Err(_) => Err(ExtractError::InvalidPadding),
    }
}

/// Files enough for every needed chunk hold the whole payload: the needed
/// chunk count times the chunk size covers the payload length.
proof fn lemma_needed_capacity_suffices(len: int, chunk_size: int)
    requires
        len >= 0,
        chunk_size >= 1,
    ensures
        needed_chunks(len, chunk_size) * chunk_size >= len,
        needed_chunks(len, chunk_size) >= 0,
{
    if len == 0 {
        assert(needed_chunks(len, chunk_size) * chunk_size == 0) by (nonlinear_arith)
            requires
                needed_chunks(len, chunk_size) == 0,
        ;
    } else {
        let q = (len - 1) / chunk_size;
        vstd::arithmetic::div_mod::lemma_fundamental_div_mod(len - 1, chunk_size);
        assert(len - 1 == chunk_size * q + (len - 1) % chunk_size);
        assert(q >= 0) by {
            vstd::arithmetic::div_mod::lemma_div_pos_is_pos(len - 1, chunk_size);
        }
        assert((q + 1) * chunk_size == chunk_size * q + chunk_size) by (nonlinear_arith);
    }
}

/// The trailing chunks of the first `k` appended-to files are exactly the
/// first `k * chunk_size` bytes of the written stream.
proof fn lemma_tails_of_chunks(
    payload: Seq<u8>,
    old_contents: Seq<Seq<u8>>,
    k: int,
    chunk_size: int,
)
    requires
        chunk_size >= 1,
        0 <= k <= needed_chunks(payload.len() as int, chunk_size),
        old_contents.len() >= needed_chunks(payload.len() as int, chunk_size),
    ensures
        k * chunk_size >= 0,
        tails_concat(after_hide(old_contents, full_chunks(payload, chunk_size)), k, chunk_size)
            == Seq::new((k * chunk_size) as nat, |i: int| written_byte(payload, i)),
    decreases k,
{
    let chunks = full_chunks(payload, chunk_size);
    let contents = after_hide(old_contents, chunks);
    if k == 0 {
        assert(k * chunk_size == 0) by (nonlinear_arith)
            requires
                k == 0,
        ;
        assert(tails_concat(contents, 0, chunk_size) =~= Seq::new(
            0,
            |i: int| written_byte(payload, i),
        ));
    } else {
        lemma_tails_of_chunks(payload, old_contents, k - 1, chunk_size);
        let base = (k - 1) * chunk_size;
        assert(k * chunk_size == base + chunk_size) by (nonlinear_arith)
            requires
                base == (k - 1) * chunk_size,
        ;
        let prev = tails_concat(contents, k - 1, chunk_size);
        let this_chunk = chunk_at(payload, k - 1, chunk_size);
        assert(contents[k - 1] == old_contents[k - 1] + chunks[k - 1]);
        assert(chunks[k - 1] == this_chunk);
        assert(this_chunk.len() == chunk_size);
        assert(tail_chunk(contents[k - 1], chunk_size) =~= this_chunk) by {
            let whole = old_contents[k - 1] + this_chunk;
            assert(whole.len() >= chunk_size);
            if whole.len() == chunk_size {
            } else {
                assert(whole.skip(whole.len() - chunk_size) =~= this_chunk);
            }
        }
        assert(tails_concat(contents, k, chunk_size) == prev + this_chunk);
        assert(prev + this_chunk =~= Seq::new(
            (k * chunk_size) as nat,
            |i: int| written_byte(payload, i),
        ));
    }
}

/// Files whose trailing chunks are empty add nothing to the collection:
/// walking past them gathers the same bytes.
proof fn lemma_tails_concat_empty_past(contents: Seq<Seq<u8>>, k: int, n: int, chunk_size: int)
    requires
        chunk_size >= 0,
        0 <= k <= n <= contents.len(),
        forall|i: int| k <= i < n ==> (#[trigger] contents[i]).len() == 0,
    ensures
        tails_concat(contents, n, chunk_size) == tails_concat(contents, k, chunk_size),
    decreases n - k,
{
    if n > k {
        lemma_tails_concat_empty_past(contents, k, n - 1, chunk_size);
        assert(contents[n - 1].len() == 0);
        assert(tail_chunk(contents[n - 1], chunk_size) =~= Seq::<u8>::empty());
        assert(tails_concat(contents, n, chunk_size) =~= tails_concat(contents, n - 1, chunk_size));
    }
}

/// Round-trip law: hide, then extract. For any password, message and chunk
/// size, given files enough for every needed chunk, appending the planned
/// chunks to the files and extracting from them with the same password and
/// chunk size hands the ciphertext intact through collection, stripping and
/// decoding, so the outcome is exactly what decryption makes of the original
/// ciphertext — and decryption under the key that encrypted returns the
/// message itself, as the contract of `hide_message` states.
pub proof fn lemma_round_trip(
    password: Seq<u8>,
    message: Seq<u8>,
    old_contents: Seq<Seq<u8>>,
    chunk_size: int,
)
    requires
        chunk_size >= 1,
        old_contents.len() >= needed_chunks(encoded_message(password, message).len() as int, chunk_size),
    ensures
        ({
            let key = key_of(password);
            let ciphertext = ciphertext_of(key, message);
            let enc = encoded_message(password, message);
            extract_outcome(
                key,
                after_hide(old_contents, full_chunks(enc, chunk_size)),
                needed_chunks(enc.len() as int, chunk_size),
                chunk_size,
            ) == decrypted_of(key, ciphertext)
        }),
{
    let key = key_of(password);
    let ciphertext = ciphertext_of(key, message);
    let enc = encoded_message(password, message);
    let l = enc.len() as int;
    let needed = needed_chunks(l, chunk_size);
    let chunks = full_chunks(enc, chunk_size);
    let contents = after_hide(old_contents, chunks);
    let total = needed * chunk_size;

    lemma_hex_round_trip(ciphertext);
    lemma_needed_capacity_suffices(l, chunk_size);
    assert(total >= l && total >= 0);

    lemma_tails_of_chunks(enc, old_contents, needed, chunk_size);
    let stream = Seq::new(total as nat, |i: int| written_byte(enc, i));
    assert(tails_concat(contents, needed, chunk_size) == stream);

    let zeros = Seq::new((total - l) as nat, |_i: int| FILL_BYTE);
    assert(stream.reverse() =~= zeros + enc) by {
        assert(stream.reverse().len() == total);
        assert forall|i: int| 0 <= i < total implies stream.reverse()[i] == (zeros + enc)[i] by {
            assert(stream.reverse()[i] == stream[total - 1 - i]);
            assert(stream[total - 1 - i] == written_byte(enc, total - 1 - i));
            if i < total - l {
                assert(total - 1 - i >= l);
                assert((zeros + enc)[i] == FILL_BYTE);
            } else {
                assert(0 <= total - 1 - i < l);
                assert(written_byte(enc, total - 1 - i) == enc[l - 1 - (total - 1 - i)]);
                assert((zeros + enc)[i] == enc[i - (total - l)]);
            }
        }
    }

    assert(collected_payload_limited(contents, needed, chunk_size) == zeros + enc) by {
        assert(contents.len() == old_contents.len() >= needed);
    }

    assert(strip_fill_spec(zeros + enc) == enc) by {
        lemma_strip_fill_add(zeros, enc);
        lemma_strip_fill_all(zeros);
        lemma_strip_fill_none(enc);
        assert(Seq::<u8>::empty() + enc =~= enc);
    }

    assert(hex_decoding(enc) == Some(ciphertext));
}

/// Round-trip law in its plainest shape: hiding in a directory of empty
/// files, with files enough for every needed chunk, and extracting from all
/// of them — no file count given — hands the ciphertext intact to
/// decryption: the files past the last chunk stay empty and add nothing to
/// the collection.
pub proof fn lemma_round_trip_empty_files(
    password: Seq<u8>,
    message: Seq<u8>,
    num_files: int,
    chunk_size: int,
)
    requires
        chunk_size >= 1,
        num_files >= needed_chunks(
            encoded_message(password, message).len() as int,
            chunk_size,
        ),
    ensures
        ({
            let key = key_of(password);
            let enc = encoded_message(password, message);
            let empties = Seq::new(num_files as nat, |i: int| Seq::<u8>::empty());
            extract_outcome(
                key,
                after_hide(empties, full_chunks(enc, chunk_size)),
                num_files,
                chunk_size,
            ) == decrypted_of(key, ciphertext_of(key, message))
        }),
{
    let key = key_of(password);
    let enc = encoded_message(password, message);
    let needed = needed_chunks(enc.len() as int, chunk_size);
    let chunks = full_chunks(enc, chunk_size);
    let empties = Seq::new(num_files as nat, |i: int| Seq::<u8>::empty());
    let contents = after_hide(empties, chunks);
    lemma_round_trip(password, message, empties, chunk_size);
    assert forall|i: int| needed <= i < num_files implies (#[trigger] contents[i]).len() == 0 by {
        assert(contents[i] == empties[i]);
    }
    lemma_tails_concat_empty_past(contents, needed, num_files, chunk_size);
    assert(collected_payload_limited(contents, num_files, chunk_size) == collected_payload_limited(
        contents,
        needed,
        chunk_size,
    ));
}

} // verus!
