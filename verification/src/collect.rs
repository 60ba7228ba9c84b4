//! Collection: extraction reads the trailing chunk of each file back, in the
//! same file order, reverses the whole accumulation to undo the end-first
//! distribution, and strips the fill byte. This module does all of that on
//! the file contents; reading the files is the caller's I/O.

use vstd::prelude::*;
use crate::params::FILL_BYTE;

verus! {

/// The trailing `chunk_size` bytes of a file's content, or all of it when the
/// file is shorter.
pub open spec fn tail_chunk(content: Seq<u8>, chunk_size: int) -> Seq<u8> {
    if content.len() <= chunk_size {
        content
    } else {
        content.skip(content.len() - chunk_size)
    }
}

/// The trailing chunks of the first `k` file contents, concatenated in file
/// order.
pub open spec fn tails_concat(contents: Seq<Seq<u8>>, k: int, chunk_size: int) -> Seq<u8>
    decreases k,
{
    if k <= 0 {
        Seq::empty()
    } else {
        tails_concat(contents, k - 1, chunk_size) + tail_chunk(contents[k - 1], chunk_size)
    }
}

/// How many files collection walks: the caller's count when given (but no
/// more than there are files), else all of them.
pub open spec fn file_limit(num_files: Option<usize>, n: int) -> int {
    match num_files {
        Some(k) => {
            if k <= n {
                k as int
            } else {
                n
            }
        },
        None => n,
    }
}

/// What collecting the first `limit` files returns: their trailing chunks in
/// file order, the whole accumulation then reversed.
pub open spec fn collected_payload_limited(
    contents: Seq<Seq<u8>>,
    limit: int,
    chunk_size: int,
) -> Seq<u8> {
    let k = if limit <= contents.len() {
        limit
    } else {
        contents.len() as int
    };
    tails_concat(contents, k, chunk_size).reverse()
}

/// What collection returns: the trailing chunks of the walked files, in file
/// order, the whole accumulation then reversed.
pub open spec fn collected_payload(
    contents: Seq<Seq<u8>>,
    num_files: Option<usize>,
    chunk_size: int,
) -> Seq<u8> {
    collected_payload_limited(contents, file_limit(num_files, contents.len() as int), chunk_size)
}

/// The collected sequence with every fill byte removed, wherever it stands.
pub open spec fn strip_fill_spec(s: Seq<u8>) -> Seq<u8>
    decreases s.len(),
{
    if s.len() == 0 {
        Seq::empty()
    } else if s.last() == FILL_BYTE {
        strip_fill_spec(s.drop_last())
    } else {
        strip_fill_spec(s.drop_last()).push(s.last())
    }
}

/// Reads the trailing chunks of the first `file_limit` contents back, in file
/// order, and reverses the accumulated bytes, undoing the end-first order of
/// distribution.
pub fn collect_payload(contents: &Vec<Vec<u8>>, num_files: Option<usize>, chunk_size: usize) -> (r:
    Vec<u8>)
    ensures
        r@ == collected_payload(contents.deep_view(), num_files, chunk_size as int),
{
    let limit: usize = match num_files {
        Some(k) => {
            if k <= contents.len() {
                k
            } else {
                contents.len()
            }
        },
        None => contents.len(),
    };
    let ghost cs = chunk_size as int;
    let ghost cv = contents.deep_view();
    proof {
        assert(limit as int == file_limit(num_files, cv.len() as int));
    }
    let mut acc: Vec<u8> = Vec::new();
    let mut f: usize = 0;
    while f < limit
        invariant
            limit <= contents@.len(),
            cv == contents.deep_view(),
            cs == chunk_size as int,
            f <= limit,
            acc@ == tails_concat(cv, f as int, cs),
        decreases limit - f,
    {
        let content = &contents[f];
        let start: usize = if content.len() <= chunk_size {
            0
        } else {
            content.len() - chunk_size
        };
        proof {
            assert(cv[f as int] == content@);
            assert(tail_chunk(cv[f as int], cs) =~= content@.skip(start as int));
        }
        let mut j: usize = start;
        while j < content.len()
            invariant
                start <= j <= content@.len(),
                cv == contents.deep_view(),
                0 <= (f as int) < cv.len(),
                cv[f as int] == content@,
                cs == chunk_size as int,
                tail_chunk(cv[f as int], cs) == content@.skip(start as int),
                acc@ == tails_concat(cv, f as int, cs) + content@.subrange(
                    start as int,
                    j as int,
                ),
            decreases content@.len() - j,
        {
            acc.push(content[j]);
            proof {
                assert(content@.subrange(start as int, j + 1) =~= content@.subrange(
                    start as int,
                    j as int,
                ).push(content@[j as int]));
            }
            j = j + 1;
        }
        proof {
            assert(content@.subrange(start as int, content@.len() as int) =~= content@.skip(
                start as int,
            ));
            assert(acc@ =~= tails_concat(cv, f as int + 1, cs));
        }
        f = f + 1;
    }
    let mut out: Vec<u8> = Vec::new();
    let mut i: usize = acc.len();
    while i > 0
        invariant
            i <= acc@.len(),
            out@.len() == acc@.len() - i as int,
            forall|k: int| 0 <= k < out@.len() ==> out@[k] == acc@[acc@.len() - 1 - k],
        decreases i,
    {
        i = i - 1;
        out.push(acc[i]);
    }
    proof {
        assert(out@ =~= acc@.reverse());
    }
    out
}

/// Removes every fill byte from the collected sequence, wherever it stands.
pub fn strip_fill(bytes: &Vec<u8>) -> (r: Vec<u8>)
    ensures
        r@ == strip_fill_spec(bytes@),
{
    let mut r: Vec<u8> = Vec::new();
    let mut i: usize = 0;
    while i < bytes.len()
        invariant
            i <= bytes@.len(),
            r@ == strip_fill_spec(bytes@.take(i as int)),
        decreases bytes@.len() - i,
    {
        let b = bytes[i];
        proof {
            assert(bytes@.take(i + 1).drop_last() =~= bytes@.take(i as int));
            assert(bytes@.take(i + 1).last() == bytes@[i as int]);
        }
        if b != FILL_BYTE {
            r.push(b);
        }
        i = i + 1;
    }
    proof {
        assert(bytes@.take(bytes@.len() as int) =~= bytes@);
    }
    r
}

/// Stripping distributes over concatenation.
pub proof fn lemma_strip_fill_add(a: Seq<u8>, b: Seq<u8>)
    ensures
        strip_fill_spec(a + b) == strip_fill_spec(a) + strip_fill_spec(b),
    decreases b.len(),
{
    if b.len() == 0 {
        assert(a + b =~= a);
        assert(strip_fill_spec(a) + strip_fill_spec(b) =~= strip_fill_spec(a));
    } else {
        lemma_strip_fill_add(a, b.drop_last());
        assert((a + b).drop_last() =~= a + b.drop_last());
        assert((a + b).last() == b.last());
        if b.last() == FILL_BYTE {
            assert(strip_fill_spec(a) + strip_fill_spec(b) =~= strip_fill_spec(a)
                + strip_fill_spec(b.drop_last()));
        } else {
            assert(strip_fill_spec(a) + strip_fill_spec(b) =~= (strip_fill_spec(a)
                + strip_fill_spec(b.drop_last())).push(b.last()));
        }
    }
}

/// A sequence of nothing but fill bytes strips to nothing.
pub proof fn lemma_strip_fill_all(s: Seq<u8>)
    requires
        forall|i: int| 0 <= i < s.len() ==> s[i] == FILL_BYTE,
    ensures
        strip_fill_spec(s) == Seq::<u8>::empty(),
    decreases s.len(),
{
    if s.len() > 0 {
        lemma_strip_fill_all(s.drop_last());
    }
}

/// A sequence without a fill byte strips to itself.
pub proof fn lemma_strip_fill_none(s: Seq<u8>)
    requires
        forall|i: int| 0 <= i < s.len() ==> s[i] != FILL_BYTE,
    ensures
        strip_fill_spec(s) == s,
    decreases s.len(),
{
    if s.len() > 0 {
        lemma_strip_fill_none(s.drop_last());
        assert(strip_fill_spec(s.drop_last()).push(s.last()) =~= s);
    }
}

} // verus!
