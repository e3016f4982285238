//! The io_uring submission-queue entry of a vectored read, as bytes: the
//! 64-byte record the kernel reads, laid out little-endian.
use vstd::prelude::*;

verus! {

/// The opcode of a vectored read (`IORING_OP_READV`).
pub const OP_READV: u8 = 1;

/// The size of a submission-queue entry in bytes.
pub const SQE_BYTES: usize = 64;

/// The `n` lowest bytes of `x`, least significant first.
pub open spec fn le_bytes(x: nat, n: nat) -> Seq<u8>
    decreases n,
{
    if n == 0 {
        seq![]
    } else {
        seq![(x % 256) as u8] + le_bytes(x / 256, (n - 1) as nat)
    }
}

/// `n` zero bytes.
pub open spec fn zeros(n: nat) -> Seq<u8> {
    Seq::new(n, |i: int| 0u8)
}

/// A read of one iovec at `iov_addr` from file `fd` at offset `off`, tagged
/// `tag`: opcode at 0, the descriptor at 4, the offset at 8, the iovec
/// address at 16, one iovec at 24, the tag at 32, zeros elsewhere.
pub open spec fn readv_sqe_spec(fd: i32, off: u64, iov_addr: u64, tag: u64) -> Seq<u8> {
    seq![OP_READV] + zeros(3) + le_bytes(fd as u32 as nat, 4) + le_bytes(off as nat, 8) + le_bytes(iov_addr as nat, 8)
        + le_bytes(1, 4) + zeros(4) + le_bytes(tag as nat, 8) + zeros(24)
}

fn push_le(out: &mut Vec<u8>, x: u64, n: usize)
    requires
        n <= 8,
    ensures
        final(out)@ == old(out)@ + le_bytes(x as nat, n as nat),
{
    let ghost o0 = out@;
    let mut v: u64 = x;
    let mut k: usize = 0;
    while k < n
        invariant
            k <= n,
            out@ + le_bytes(v as nat, (n - k) as nat) == o0 + le_bytes(x as nat, n as nat),
        decreases n - k,
    {
        let ghost before = out@;
        out.push((v % 256) as u8);
        proof {
            let rest = le_bytes(v as nat / 256, (n - k - 1) as nat);
            assert(le_bytes(v as nat, (n - k) as nat) == seq![(v as nat % 256) as u8] + rest);
            assert(out@ + rest =~= before + (seq![(v as nat % 256) as u8] + rest));
        }
        v = v / 256;
        k = k + 1;
    }
    assert(out@ + le_bytes(v as nat, 0) =~= out@);
}

fn push_zeros(out: &mut Vec<u8>, n: usize)
    ensures
        final(out)@ == old(out)@ + zeros(n as nat),
{
    let ghost o0 = out@;
    let mut k: usize = 0;
    while k < n
        invariant
            k <= n,
            out@ == o0 + zeros(k as nat),
        decreases n - k,
    {
        out.push(0u8);
        k = k + 1;
        assert(out@ =~= o0 + zeros(k as nat));
    }
}

/// The submission-queue entry of a vectored read.
pub fn readv_sqe(fd: i32, off: u64, iov_addr: u64, tag: u64) -> (r: Vec<u8>)
    ensures
        r@ == readv_sqe_spec(fd, off, iov_addr, tag),
        r@.len() == SQE_BYTES,
{
    let mut out: Vec<u8> = Vec::new();
    out.push(OP_READV);
    push_zeros(&mut out, 3);
    push_le(&mut out, fd as u32 as u64, 4);
    push_le(&mut out, off, 8);
    push_le(&mut out, iov_addr, 8);
    push_le(&mut out, 1, 4);
    push_zeros(&mut out, 4);
    push_le(&mut out, tag, 8);
    push_zeros(&mut out, 24);
    proof {
        assert(out@ =~= readv_sqe_spec(fd, off, iov_addr, tag));
        lemma_le_len(fd as u32 as nat, 4);
        lemma_le_len(off as nat, 8);
        lemma_le_len(iov_addr as nat, 8);
        lemma_le_len(1, 4);
        lemma_le_len(tag as nat, 8);
    }
    out
}

proof fn lemma_le_len(x: nat, n: nat)
    ensures
        le_bytes(x, n).len() == n,
    decreases n,
{
    if n > 0 {
        lemma_le_len(x / 256, (n - 1) as nat);
    }
}

} // verus!
