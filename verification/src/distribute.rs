//! Distribution: the encoded payload is dealt out across an ordered list of
//! files, a fixed-size chunk per file, taken from the end of the payload one
//! byte at a time, the last chunk padded with the fill byte when the payload
//! runs out. This module plans the chunks; appending them to the files is the
//! caller's I/O.

use vstd::prelude::*;
use crate::params::FILL_BYTE;

verus! {

/// Number of chunks a payload of the given length needs.
pub open spec fn needed_chunks(len: int, chunk_size: int) -> int
    recommends
        len >= 0,
        chunk_size >= 1,
{
    if len == 0 {
        0
    } else {
        (len - 1) / chunk_size + 1
    }
}

/// Number of chunks actually written with so many files at hand.
pub open spec fn used_chunks(len: int, num_files: int, chunk_size: int) -> int {
    if needed_chunks(len, chunk_size) <= num_files {
        needed_chunks(len, chunk_size)
    } else {
        num_files
    }
}

/// Number of payload bytes that find no file.
pub open spec fn leftover_bytes(len: int, num_files: int, chunk_size: int) -> int {
    let written = used_chunks(len, num_files, chunk_size) * chunk_size;
    if len > written {
        len - written
    } else {
        0
    }
}

/// The byte standing at position `pos` of the written stream: the payload
/// read from its end, then the fill byte once it is exhausted.
pub open spec fn written_byte(payload: Seq<u8>, pos: int) -> u8 {
    if 0 <= pos < payload.len() {
        payload[payload.len() - 1 - pos]
    } else {
        FILL_BYTE
    }
}

/// Chunk `c` of the distribution of `payload`.
pub open spec fn chunk_at(payload: Seq<u8>, c: int, chunk_size: int) -> Seq<u8> {
    Seq::new(chunk_size as nat, |j: int| written_byte(payload, c * chunk_size + j))
}

/// All chunks of a payload distributed over files enough for every chunk.
pub open spec fn full_chunks(payload: Seq<u8>, chunk_size: int) -> Seq<Seq<u8>> {
    Seq::new(
        needed_chunks(payload.len() as int, chunk_size) as nat,
        |c: int| chunk_at(payload, c, chunk_size),
    )
}

/// What distribution hands back: one chunk per file used, in file order, and
/// the number of payload bytes that found no file.
pub struct DistributionPlan {
    /// Chunk `i` is to be appended to file `i` of the ordered list.
    pub chunks: Vec<Vec<u8>>,
    /// Number of payload bytes left unwritten; zero when the files sufficed.
    pub leftover: usize,
}

/// Plans the distribution of `payload` over `num_files` files: as many chunks
/// as needed and as the files allow, each exactly `chunk_size` bytes, popped
/// from the end of the payload, the last one padded with the fill byte.
pub fn plan_distribution(payload: &Vec<u8>, num_files: usize, chunk_size: usize) -> (plan:
    DistributionPlan)
    requires
        chunk_size >= 1,
    ensures
        plan.chunks@.len() == used_chunks(
            payload@.len() as int,
            num_files as int,
            chunk_size as int,
        ),
        forall|c: int|
            0 <= c < plan.chunks@.len() ==> (#[trigger] plan.chunks@[c])@ == chunk_at(
                payload@,
                c,
                chunk_size as int,
            ),
        plan.leftover == leftover_bytes(payload@.len() as int, num_files as int, chunk_size as int),
{
    let len = payload.len();
    let ghost big_l = len as int;
    let ghost cs = chunk_size as int;
    let needed: usize = if len == 0 {
        0
    } else {
        proof {
            assert((big_l - 1) / cs <= big_l - 1) by {
                vstd::arithmetic::div_mod::lemma_div_nonincreasing(big_l - 1, cs);
            }
        }
        (len - 1) / chunk_size + 1
    };
    assert(needed as int == needed_chunks(big_l, cs));
    let used: usize = if needed <= num_files {
        needed
    } else {
        num_files
    };
    let mut chunks: Vec<Vec<u8>> = Vec::new();
    let mut remaining: usize = len;
    let mut c: usize = 0;
    while c < used
        invariant
            chunk_size >= 1,
            cs == chunk_size as int,
            big_l == payload@.len(),
            c <= used,
            remaining as int == if c as int * cs <= big_l {
                big_l - c as int * cs
            } else {
                0
            },
            chunks@.len() == c as int,
            forall|c2: int|
                0 <= c2 < c as int ==> (#[trigger] chunks@[c2])@ == chunk_at(payload@, c2, cs),
        decreases used - c,
    {
        let ghost base = c as int * cs;
        let mut chunk: Vec<u8> = Vec::new();
        let mut j: usize = 0;
        while j < chunk_size
            invariant
                chunk_size >= 1,
                cs == chunk_size as int,
                big_l == payload@.len(),
                base >= 0,
                j <= chunk_size,
                chunk@.len() == j as int,
                remaining as int == if base + j as int <= big_l {
                    big_l - (base + j as int)
                } else {
                    0
                },
                forall|k: int| 0 <= k < j as int ==> chunk@[k] == written_byte(payload@, base + k),
            decreases chunk_size - j,
        {
            if remaining > 0 {
                remaining = remaining - 1;
                chunk.push(payload[remaining]);
            } else {
                chunk.push(FILL_BYTE);
            }
            j = j + 1;
        }
        proof {
            assert(chunk@ =~= chunk_at(payload@, c as int, cs));
            assert((c as int + 1) * cs == base + cs) by (nonlinear_arith)
                requires
                    base == c as int * cs,
            ;
        }
        chunks.push(chunk);
        c = c + 1;
    }
    DistributionPlan { chunks, leftover: remaining }
}

/// Capacity shortfall law: when fewer files are at hand than the payload
/// needs, every available file is used, the number of bytes left unwritten is
/// exactly the payload length less the capacity of the files, and it is
/// positive.
pub proof fn lemma_capacity_shortfall(len: int, num_files: int, chunk_size: int)
    requires
        len >= 0,
        num_files >= 0,
        chunk_size >= 1,
        num_files < needed_chunks(len, chunk_size),
    ensures
        used_chunks(len, num_files, chunk_size) == num_files,
        leftover_bytes(len, num_files, chunk_size) == len - num_files * chunk_size,
        leftover_bytes(len, num_files, chunk_size) > 0,
{
    assert(len > 0);
    let q = (len - 1) / chunk_size;
    vstd::arithmetic::div_mod::lemma_fundamental_div_mod(len - 1, chunk_size);
    assert(len - 1 == chunk_size * q + (len - 1) % chunk_size);
    vstd::arithmetic::mul::lemma_mul_inequality(num_files, q, chunk_size);
    assert(num_files * chunk_size <= q * chunk_size);
    assert(q * chunk_size == chunk_size * q) by (nonlinear_arith);
    assert(q * chunk_size <= len - 1);
}

/// Chunk boundary law, exact multiple: a payload of exactly `k * chunk_size`
/// bytes needs exactly `k` chunks, and with at least `k` files at hand uses
/// exactly `k` of them, leaves nothing over, and writes no fill byte: every
/// position of every chunk carries a payload byte.
pub proof fn lemma_chunk_boundary_exact(payload: Seq<u8>, k: int, num_files: int, chunk_size: int)
    requires
        k >= 0,
        chunk_size >= 1,
        payload.len() == k * chunk_size,
        num_files >= k,
    ensures
        needed_chunks(payload.len() as int, chunk_size) == k,
        used_chunks(payload.len() as int, num_files, chunk_size) == k,
        leftover_bytes(payload.len() as int, num_files, chunk_size) == 0,
        forall|c: int, j: int|
            0 <= c < k && 0 <= j < chunk_size ==> #[trigger] chunk_at(payload, c, chunk_size)[j]
                == payload[payload.len() - 1 - (c * chunk_size + j)],
{
    let len = payload.len() as int;
    if k == 0 {
        assert(len == 0) by (nonlinear_arith)
            requires
                len == k * chunk_size,
                k == 0,
        ;
    } else {
        assert(len == k * chunk_size);
        assert(len >= 1) by (nonlinear_arith)
            requires
                len == k * chunk_size,
                k >= 1,
                chunk_size >= 1,
        ;
        assert((len - 1) / chunk_size == k - 1) by {
            assert(len - 1 == (k - 1) * chunk_size + (chunk_size - 1)) by (nonlinear_arith)
                requires
                    len == k * chunk_size,
            ;
            vstd::arithmetic::div_mod::lemma_fundamental_div_mod_converse(
                len - 1,
                chunk_size,
                k - 1,
                chunk_size - 1,
            );
        }
        assert(needed_chunks(len, chunk_size) == k);
    }
    assert forall|c: int, j: int| 0 <= c < k && 0 <= j < chunk_size implies #[trigger] chunk_at(
        payload,
        c,
        chunk_size,
    )[j] == payload[payload.len() - 1 - (c * chunk_size + j)] by {
        assert(0 <= c * chunk_size + j < len) by (nonlinear_arith)
            requires
                len == k * chunk_size,
                0 <= c < k,
                0 <= j < chunk_size,
        ;
    }
}

/// Chunk boundary law, one byte past the multiple: a payload of
/// `k * chunk_size + 1` bytes needs `k + 1` chunks, and with files enough the
/// last chunk carries one payload byte followed by `chunk_size - 1` fill
/// bytes.
pub proof fn lemma_chunk_boundary_one_over(payload: Seq<u8>, k: int, num_files: int, chunk_size: int)
    requires
        k >= 0,
        chunk_size >= 1,
        payload.len() == k * chunk_size + 1,
        num_files >= k + 1,
    ensures
        needed_chunks(payload.len() as int, chunk_size) == k + 1,
        used_chunks(payload.len() as int, num_files, chunk_size) == k + 1,
        leftover_bytes(payload.len() as int, num_files, chunk_size) == 0,
        chunk_at(payload, k, chunk_size)[0] == payload[0],
        forall|j: int|
            1 <= j < chunk_size ==> #[trigger] chunk_at(payload, k, chunk_size)[j] == FILL_BYTE,
{
    let len = payload.len() as int;
    assert(len - 1 == k * chunk_size);
    assert((len - 1) / chunk_size == k) by {
        vstd::arithmetic::div_mod::lemma_fundamental_div_mod_converse(len - 1, chunk_size, k, 0);
    }
    assert(needed_chunks(len, chunk_size) == k + 1);
    assert(leftover_bytes(len, num_files, chunk_size) == 0) by {
        assert((k + 1) * chunk_size >= len) by (nonlinear_arith)
            requires
                len == k * chunk_size + 1,
                chunk_size >= 1,
        ;
    }
    assert(chunk_at(payload, k, chunk_size)[0] == written_byte(payload, k * chunk_size));
    assert(k * chunk_size == len - 1);
    assert forall|j: int| 1 <= j < chunk_size implies #[trigger] chunk_at(payload, k, chunk_size)[j]
        == FILL_BYTE by {
        assert(k * chunk_size + j >= len);
    }
}

} // verus!
