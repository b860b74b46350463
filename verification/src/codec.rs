//! Canonical code construction, stream encoding, and window-based decoding.

use vstd::prelude::*;

use crate::tree::count_byte;
use crate::tree::occurs;
use vstd::arithmetic::power2::{pow2, lemma_pow2_unfold, lemma_pow2_strictly_increases, lemma_pow2_pos, lemma2_to64, lemma2_to64_rest};

verus! {

/// An entry of the canonical code table. `code` holds the code right-justified
/// (its low `len` bits); entries with `len == 0` are unused.
#[derive(Clone, Copy, Debug, PartialEq, Eq, Structural)]
pub struct Code {
    pub code: u64,
    pub len: u8,
    pub symbol: Option<u8>,
}

/// The errors the codec reports.
#[derive(Clone, Copy, Debug, PartialEq, Eq, Structural)]
pub enum CodecError {
    /// The stream ends before the header, or before `N` symbols were decoded.
    TruncatedStream,
    /// No code table entry matches the bits at the decoder's window.
    UnmatchedWindow,
    /// A code length above 32 cannot pass through the 32-bit-wide bit packer.
    OversizedCode,
}

/// First canonical code of length `k`, as the standard construction assigns it:
/// zero at length one, then `(previous + count of previous length) * 2`.
pub open spec fn first_code(lens: Seq<u8>, k: nat) -> int
    decreases k,
{
    if k <= 1 {
        0
    } else {
        (first_code(lens, (k - 1) as nat) + count_byte(lens, (k - 1) as u8)) * 2
    }
}

/// Symbols below `b` that share `b`'s code length; they precede `b` in the
/// canonical order.
pub open spec fn rank(lens: Seq<u8>, b: int) -> nat {
    count_byte(lens.take(b), lens[b])
}

/// The canonical code value of symbol `b` (meaningful when `lens[b] > 0`).
pub open spec fn canon_code(lens: Seq<u8>, b: int) -> int {
    first_code(lens, lens[b] as nat) + rank(lens, b)
}

/// `first_code` stays below `2^(k+10) - 512` once every length count is at
/// most 256, so the construction fits comfortably in 64 bits for `k <= 32`.
proof fn lemma_first_code_bound(lens: Seq<u8>, k: nat)
    requires
        lens.len() == 256,
        1 <= k,
    ensures
        0 <= first_code(lens, k) <= pow2(k + 10) - 512,
    decreases k,
{
    crate::tree::lemma_count_byte_le_len(lens, (k - 1) as u8);
    if k <= 1 {
        lemma2_to64();
    } else {
        lemma_first_code_bound(lens, (k - 1) as nat);
        lemma_pow2_unfold((k + 10) as nat);
    }
}

proof fn lemma_pow2_le(a: nat, b: nat)
    requires
        a <= b,
    ensures
        pow2(a) <= pow2(b),
{
    if a < b {
        lemma_pow2_strictly_increases(a, b);
    }
}

/// Turn a 256-entry length vector into the canonical code table.
///
/// Entry `b` carries the canonical code of length `lens[b]`; same-length
/// symbols receive consecutive codes in ascending byte order.
pub fn lengths_to_codes(lens: &Vec<u8>) -> (codes: Vec<Code>)
    requires
        lens@.len() == 256,
        forall|b: int| 0 <= b < 256 ==> lens@[b] <= 32,
    ensures
        codes@.len() == 256,
        forall|b: int| 0 <= b < 256 ==> codes@[b].len == lens@[b],
        forall|b: int|
            0 <= b < 256 && lens@[b] > 0 ==> (#[trigger] codes@[b]).symbol == Some(b as u8),
        forall|b: int|
            0 <= b < 256 && lens@[b] > 0 ==> (#[trigger] codes@[b]).code == canon_code(lens@, b),
        forall|b: int| 0 <= b < 256 && lens@[b] == 0 ==> codes@[b].symbol is None,
{
    // Count how many symbols use each length; lengths are bounded by 32.
    let mut bl_count: Vec<u64> = Vec::new();
    let mut k: usize = 0;
    while k < 33
        invariant
            k <= 33,
            bl_count@.len() == k,
            forall|j: int| 0 <= j < k ==> bl_count@[j] == 0,
        decreases 33 - k,
    {
        bl_count.push(0);
        k += 1;
    }
    let mut b: usize = 0;
    while b < 256
        invariant
            b <= 256,
            lens@.len() == 256,
            forall|bb: int| 0 <= bb < 256 ==> lens@[bb] <= 32,
            bl_count@.len() == 33,
            forall|j: int|
                0 <= j < 33 ==> bl_count@[j] == count_byte(lens@.take(b as int), j as u8),
        decreases 256 - b,
    {
        let l = lens[b] as usize;
        proof {
            crate::tree::lemma_count_byte_le_len(lens@.take(b as int), lens@[b as int]);
        }
        bl_count[l] = bl_count[l] + 1;
        b += 1;
        proof {
            assert forall|j: int| 0 <= j < 33 implies bl_count@[j] == count_byte(
                lens@.take(b as int),
                j as u8,
            ) by {
                assert(lens@.take(b as int).drop_last() =~= lens@.take(b - 1));
            }
        }
    }
    proof {
        assert(lens@.take(256) =~= lens@);
    }
    bl_count[0] = 0;

    // First code of each length, from the canonical recurrence.
    let mut next_code: Vec<u64> = Vec::new();
    k = 0;
    while k < 33
        invariant
            k <= 33,
            next_code@.len() == k,
            forall|j: int| 0 <= j < k ==> next_code@[j] == 0,
        decreases 33 - k,
    {
        next_code.push(0);
        k += 1;
    }
    let mut code: u64 = 0;
    let mut bitlen: usize = 1;
    while bitlen < 33
        invariant
            1 <= bitlen <= 33,
            lens@.len() == 256,
            bl_count@.len() == 33,
            bl_count@[0] == 0,
            forall|j: int| 1 <= j < 33 ==> bl_count@[j] == count_byte(lens@, j as u8),
            next_code@.len() == 33,
            code == first_code(lens@, (bitlen - 1) as nat),
            forall|j: int| 1 <= j < bitlen ==> next_code@[j] == first_code(lens@, j as nat),
            forall|j: int| bitlen <= j < 33 ==> next_code@[j] == 0,
        decreases 33 - bitlen,
    {
        proof {
            crate::tree::lemma_count_byte_le_len(lens@, (bitlen - 1) as u8);
            if bitlen > 1 {
                lemma_first_code_bound(lens@, (bitlen - 1) as nat);
            }
            lemma_pow2_le((bitlen + 9) as nat, 43);
            lemma2_to64();
            lemma2_to64_rest();
        }
        code = (code + bl_count[bitlen - 1]) * 2;
        next_code[bitlen] = code;
        proof {
            if bitlen == 1 {
                // The construction forces the count of length zero to zero,
                // so the first length-one code is zero.
                assert(first_code(lens@, 0) == 0);
                assert(code == 0);
                assert(first_code(lens@, 1) == 0);
            } else {
                assert(first_code(lens@, bitlen as nat) == (first_code(lens@, (bitlen - 1) as nat)
                    + count_byte(lens@, (bitlen - 1) as u8)) * 2);
            }
            assert(code == first_code(lens@, bitlen as nat));
        }
        bitlen += 1;
    }

    // Assign consecutive codes to same-length symbols in ascending byte order.
    let mut codes: Vec<Code> = Vec::new();
    b = 0;
    while b < 256
        invariant
            b <= 256,
            lens@.len() == 256,
            forall|bb: int| 0 <= bb < 256 ==> lens@[bb] <= 32,
            next_code@.len() == 33,
            forall|j: int|
                1 <= j < 33 ==> next_code@[j] == first_code(lens@, j as nat) + count_byte(
                    lens@.take(b as int),
                    j as u8,
                ),
            codes@.len() == b,
            forall|bb: int| 0 <= bb < b ==> codes@[bb].len == lens@[bb],
            forall|bb: int|
                0 <= bb < b && lens@[bb] > 0 ==> codes@[bb].symbol == Some(bb as u8),
            forall|bb: int|
                0 <= bb < b && lens@[bb] > 0 ==> codes@[bb].code == canon_code(lens@, bb),
            forall|bb: int| 0 <= bb < b && lens@[bb] == 0 ==> codes@[bb].symbol is None,
        decreases 256 - b,
    {
        let bl = lens[b];
        let ghost pre = codes@;
        proof {
            crate::tree::lemma_count_byte_le_len(lens@.take(b as int), lens@[b as int]);
            if bl > 0 {
                lemma_first_code_bound(lens@, bl as nat);
                lemma_pow2_le((bl + 10) as nat, 43);
                lemma2_to64();
                lemma2_to64_rest();
            }
        }
        if bl != 0 {
            let c = next_code[bl as usize];
            proof {
                assert(next_code@[bl as int] == first_code(lens@, bl as nat) + count_byte(
                    lens@.take(b as int),
                    bl,
                ));
                assert(rank(lens@, b as int) == count_byte(lens@.take(b as int), lens@[b as int]));
                assert(c == canon_code(lens@, b as int));
            }
            codes.push(Code { code: c, len: bl, symbol: Some(b as u8) });
            next_code[bl as usize] = c + 1;
        } else {
            codes.push(Code { code: 0, len: 0, symbol: None });
        }
        b += 1;
        proof {
            assert forall|j: int| 1 <= j < 33 implies next_code@[j] == first_code(lens@, j as nat)
                + count_byte(lens@.take(b as int), j as u8) by {
                assert(lens@.take(b as int).drop_last() =~= lens@.take(b - 1));
            }
            assert forall|bb: int| 0 <= bb < b && lens@[bb] > 0 implies codes@[bb].symbol == Some(
                bb as u8,
            ) by {
                if bb < b - 1 {
                    assert(codes@[bb] == pre[bb]);
                }
            }
            assert forall|bb: int| 0 <= bb < b && lens@[bb] > 0 implies codes@[bb].code
                == canon_code(lens@, bb) by {
                if bb < b - 1 {
                    assert(codes@[bb] == pre[bb]);
                    assert(codes@[bb].code == canon_code(lens@, bb));
                } else {
                    assert(bb == b - 1);
                    assert(codes@[bb].code == canon_code(lens@, bb));
                }
            }
        }
    }
    codes
}

/// A mask selecting the top `sz` bits of a 64-bit window.
pub open spec fn lalign_mask(sz: u8) -> u64 {
    if sz == 0 {
        0u64
    } else {
        (u64::MAX << ((64 - sz) as u64)) as u64
    }
}

/// The entry matches when the window's top `len` bits equal the code,
/// left-aligned to the window's most significant bit.
pub open spec fn code_matches(window: u64, c: Code) -> bool {
    1 <= c.len <= 32 && (window & lalign_mask(c.len)) == ((c.code << ((64 - c.len) as u64)) as u64)
}

/// A mask of `sz` one bits, aligned to the top of the 64-bit window.
pub fn gen_bitmask_lalign(sz: u8) -> (mask: u64)
    requires
        sz <= 64,
    ensures
        mask == lalign_mask(sz),
{
    if sz == 0 {
        return 0;
    }
    u64::MAX << ((64 - sz) as u64)
}

/// Scan the table for the first entry whose code matches the window's top
/// bits. Canonical codes are prefix-free, so at most one entry can match a
/// well-formed table; the scan order pins the result regardless.
pub fn match_code(window: u64, codes: &Vec<Code>) -> (r: Result<Code, CodecError>)
    requires
        forall|i: int| 0 <= i < codes@.len() ==> 1 <= (#[trigger] codes@[i]).len <= 32,
    ensures
        r is Ok ==> exists|i: int|
            0 <= i < codes@.len() && codes@[i] == r.unwrap() && code_matches(
                window,
                #[trigger] codes@[i],
            ) && (forall|j: int| 0 <= j < i ==> !code_matches(window, codes@[j])),
        r is Err ==> r.unwrap_err() == CodecError::UnmatchedWindow && (forall|i: int|
            0 <= i < codes@.len() ==> !code_matches(window, #[trigger] codes@[i])),
{
    let mut i: usize = 0;
    while i < codes.len()
        invariant
            i <= codes@.len(),
            forall|i2: int| 0 <= i2 < codes@.len() ==> 1 <= (#[trigger] codes@[i2]).len <= 32,
            forall|j: int| 0 <= j < i ==> !code_matches(window, codes@[j]),
        decreases codes@.len() - i,
    {
        let c = codes[i];
        let mask = gen_bitmask_lalign(c.len);
        let aligned = c.code << ((64 - c.len) as u64);
        if (window & mask) == aligned {
            return Ok(c);
        }
        i += 1;
    }
    Err(CodecError::UnmatchedWindow)
}

/// An 8-byte big-endian rendering of a 64-bit count.
pub open spec fn be64_bytes(n: u64) -> Seq<u8> {
    Seq::new(8, |i: int| (n >> ((56 - 8 * i) as u64)) as u8)
}

fn u64_to_be_bytes(n: u64) -> (r: Vec<u8>)
    ensures
        r@ == be64_bytes(n),
{
    let mut r: Vec<u8> = Vec::new();
    let mut i: usize = 0;
    while i < 8
        invariant
            i <= 8,
            r@.len() == i,
            forall|j: int| 0 <= j < i ==> r@[j] == (n >> ((56 - 8 * j) as u64)) as u8,
        decreases 8 - i,
    {
        r.push((n >> (56 - 8 * (i as u64))) as u8);
        i += 1;
    }
    proof {
        assert(r@ =~= be64_bytes(n));
    }
    r
}

/// The canonical code bits of symbol `b` under the length vector `lens`,
/// most significant bit first.
pub open spec fn code_bits(lens: Seq<u8>, b: u8) -> Seq<bool> {
    crate::bits::value_bits(canon_code(lens, b as int) as u64, lens[b as int] as nat)
}

/// The payload: each input byte's canonical code, in input order.
pub open spec fn payload_bits(lens: Seq<u8>, input: Seq<u8>) -> Seq<bool>
    decreases input.len(),
{
    if input.len() == 0 {
        Seq::empty()
    } else {
        payload_bits(lens, input.drop_last()) + code_bits(lens, input.last())
    }
}

/// The shape of a well-formed compressed stream for `input`: the 8-byte
/// big-endian input length, 256 length bytes marking exactly the occurring
/// symbols, and the packed canonical codes, zero-padded to a byte boundary.
pub open spec fn encoded_wf(out: Seq<u8>, input: Seq<u8>) -> bool {
    let lens = out.subrange(8, 264);
    let body = payload_bits(lens, input);
    &&& out.len() >= 264
    &&& out.subrange(0, 8) == be64_bytes(input.len() as u64)
    &&& forall|b: int| 0 <= b < 256 ==> ((lens[b] > 0) <==> occurs(input, b as u8))
    &&& forall|b: int| 0 <= b < 256 ==> lens[b] <= 32
    &&& forall|b: int|
        0 <= b < 256 && #[trigger] lens[b] > 0 ==> canon_code(lens, b) < pow2(lens[b] as nat)
    &&& crate::bits::stream_bits(out.skip(264)) == body + Seq::new(
        crate::bits::pad_len(body.len()),
        |i: int| false,
    )
}

/// A byte of the stream occurs in it.
proof fn lemma_element_occurs(s: Seq<u8>, i: int)
    requires
        0 <= i < s.len(),
    ensures
        count_byte(s, s[i]) > 0,
    decreases s.len(),
{
    if i < s.len() - 1 {
        lemma_element_occurs(s.drop_last(), i);
    }
}

/// Compress a byte stream: an 8-byte big-endian length, the 256-entry code
/// length vector, then every input byte's canonical code packed MSB-first.
///
/// Fails only when a code would not fit the 32-bit window: a frequency tree
/// always yields a complete prefix code, so in practice every input is
/// accepted; the checks make the guarantee below unconditional.
///
/// On success the output is round-trip exact: the window decoder's result
/// on it is the original input, byte for byte.
#[verifier::rlimit(100)]
#[verifier::spinoff_prover]
pub fn encode(bytes: &Vec<u8>) -> (r: Result<Vec<u8>, CodecError>)
    ensures
        r is Ok ==> encoded_wf(r.unwrap()@, bytes@),
        r is Ok ==> spec_decode(
            used_codes(r.unwrap()@.subrange(8, 264)),
            crate::bits::stream_bits(r.unwrap()@.skip(264)),
            0,
            bytes@.len() as nat,
        ) == Ok::<Seq<u8>, CodecError>(bytes@),
        r is Ok ==> be64_val(r.unwrap()@.subrange(0, 8)) == bytes@.len(),
        r is Ok ==> crate::tree::lens_of_tree(r.unwrap()@.subrange(8, 264), bytes@),
        r is Err ==> r.unwrap_err() == CodecError::OversizedCode,
        r is Err ==> crate::tree::distinct_count(bytes@) >= 34,
        crate::tree::distinct_count(bytes@) <= 33 ==> r is Ok,
        bytes@.len() == 0 ==> r is Ok,
{
    let tree = crate::tree::HuffmanTree::from(bytes);
    let lens = tree.get_bitlengths();
    let ghost inp = bytes@;
    let mut b: usize = 0;
    while b < 256
        invariant
            inp == bytes@,
            b <= 256,
            lens@.len() == 256,
            forall|v: int| 0 <= v < b ==> lens@[v] <= 32,
            forall|v: int| 0 <= v < 256 ==> ((lens@[v] > 0) <==> occurs(inp, v as u8)),
            forall|v: int|
                0 <= v < 256 ==> lens@[v] as nat <= crate::tree::internal_total(tree.nodes@) || (
                crate::tree::internal_total(tree.nodes@) == 0 && lens@[v] <= 1),
            crate::tree::distinct_count(inp) >= 1 ==> crate::tree::internal_total(tree.nodes@)
                == crate::tree::distinct_count(inp) - 1,
            crate::tree::distinct_count(inp) == 0 ==> crate::tree::internal_total(tree.nodes@)
                == 0,
            crate::tree::internal_total(tree.nodes@) <= 255,
        decreases 256 - b,
    {
        if lens[b] > 32 {
            proof {
                // A length above 32 needs at least 33 internal levels above
                // its leaf, hence at least 34 distinct symbols; in
                // particular the stream is not empty.
                assert(lens@[b as int] > 32);
                assert(lens@[b as int] as nat <= crate::tree::internal_total(tree.nodes@) || (
                crate::tree::internal_total(tree.nodes@) == 0 && lens@[b as int] <= 1));
                assert(crate::tree::internal_total(tree.nodes@) >= 33);
                assert(crate::tree::distinct_count(inp) >= 34);
                assert(occurs(inp, b as u8));
                crate::tree::lemma_count_byte_le_len(inp, b as u8);
                assert(inp.len() > 0);
            }
            return Err(CodecError::OversizedCode);
        }
        b += 1;
    }
    let codes = lengths_to_codes(&lens);
    proof {
        lemma_tree_lengths_fit(tree.nodes@, lens@);
    }
    let mut out = u64_to_be_bytes(bytes.len() as u64);
    proof {
        assert(out@.subrange(0, 8) =~= be64_bytes(inp.len() as u64));
    }
    let mut j: usize = 0;
    while j < 256
        invariant
            j <= 256,
            lens@.len() == 256,
            out@.len() == 8 + j,
            out@.subrange(0, 8) == be64_bytes(inp.len() as u64),
            forall|t: int| 0 <= t < j ==> out@[8 + t] == lens@[t],
        decreases 256 - j,
    {
        let ghost out0 = out@;
        out.push(lens[j]);
        proof {
            assert(out@.subrange(0, 8) =~= out0.subrange(0, 8));
        }
        j += 1;
    }
    let mut bw = crate::bits::BitWriter::new();
    let mut i: usize = 0;
    while i < bytes.len()
        invariant
            i <= bytes@.len(),
            bytes@ == inp,
            lens@.len() == 256,
            forall|v: int| 0 <= v < 256 ==> lens@[v] <= 32,
            forall|v: int| 0 <= v < 256 ==> ((lens@[v] > 0) <==> occurs(inp, v as u8)),
            codes@.len() == 256,
            forall|v: int| 0 <= v < 256 ==> (#[trigger] codes@[v]).len == lens@[v],
            forall|v: int|
                0 <= v < 256 && lens@[v] > 0 ==> (#[trigger] codes@[v]).code == canon_code(
                    lens@,
                    v,
                ),
            bw.wf(),
            bw.bits() == payload_bits(lens@, inp.take(i as int)),
        decreases bytes@.len() - i,
    {
        let sym = bytes[i] as usize;
        proof {
            lemma_element_occurs(inp, i as int);
            assert(occurs(inp, inp[i as int]));
            assert(lens@[sym as int] > 0);
        }
        let ghost bits0 = bw.bits();
        bw.write_bits(codes[sym].code, codes[sym].len);
        i += 1;
        proof {
            let t1 = inp.take(i as int);
            assert(t1.drop_last() =~= inp.take(i - 1));
            assert(t1.last() == inp[i - 1]);
            assert(payload_bits(lens@, t1) == payload_bits(lens@, inp.take(i - 1)) + code_bits(
                lens@,
                inp[i - 1],
            ));
            assert(codes@[sym as int].code == canon_code(lens@, sym as int));
            assert(code_bits(lens@, inp[i - 1]) == crate::bits::value_bits(
                codes@[sym as int].code,
                lens@[sym as int] as nat,
            ));
        }
    }
    proof {
        assert(inp.take(inp.len() as int) =~= inp);
    }
    bw.flush();
    let payload = bw.into_bytes();
    let ghost head = out@;
    let ghost pbytes = payload@;
    let mut p: usize = 0;
    let plen = payload.len();
    while p < plen
        invariant
            p <= plen,
            payload@.len() == plen,
            payload@ == pbytes,
            head.len() == 264,
            out@.len() == 264 + p,
            out@.subrange(0, 264) == head,
            forall|t: int| 0 <= t < p ==> out@[264 + t] == pbytes[t],
        decreases plen - p,
    {
        let ghost out0 = out@;
        out.push(payload[p]);
        proof {
            assert(out@.subrange(0, 264) =~= out0.subrange(0, 264));
        }
        p += 1;
    }
    proof {
        lemma_encode_glue(out@, head, lens@, pbytes, inp);
        lemma_lens_witness(tree.nodes@, lens@, inp);
    }
    Ok(out)
}

/// Assembling header, lengths and payload bytes yields a well-formed stream,
/// and such a stream decodes back to its input.
proof fn lemma_encode_glue(o: Seq<u8>, head: Seq<u8>, lens: Seq<u8>, pbytes: Seq<u8>, inp: Seq<u8>)
    requires
        inp.len() <= u64::MAX,
        head.len() == 264,
        o.len() == 264 + pbytes.len(),
        o.subrange(0, 264) == head,
        forall|t: int| 0 <= t < pbytes.len() ==> #[trigger] o[264 + t] == pbytes[t],
        head.subrange(0, 8) == be64_bytes(inp.len() as u64),
        forall|t: int| 0 <= t < 256 ==> #[trigger] head[8 + t] == lens[t],
        lens.len() == 256,
        forall|b: int| 0 <= b < 256 ==> ((#[trigger] lens[b] > 0) <==> occurs(inp, b as u8)),
        forall|b: int| 0 <= b < 256 ==> #[trigger] lens[b] <= 32,
        forall|b: int|
            0 <= b < 256 && #[trigger] lens[b] > 0 ==> canon_code(lens, b) < pow2(
                lens[b] as nat,
            ),
        crate::bits::stream_bits(pbytes) == payload_bits(lens, inp) + Seq::new(
            crate::bits::pad_len(payload_bits(lens, inp).len()),
            |i: int| false,
        ),
    ensures
        encoded_wf(o, inp),
        o.subrange(8, 264) == lens,
        spec_decode(
            used_codes(o.subrange(8, 264)),
            crate::bits::stream_bits(o.skip(264)),
            0,
            inp.len() as nat,
        ) == Ok::<Seq<u8>, CodecError>(inp),
        be64_val(o.subrange(0, 8)) == inp.len(),
{
    assert forall|x: int| 0 <= x < 8 implies o.subrange(0, 8)[x] == head.subrange(0, 8)[x] by {
        assert(o.subrange(0, 264)[x] == o[x]);
    }
    assert(o.subrange(0, 8) =~= head.subrange(0, 8));
    assert forall|t: int| 0 <= t < 256 implies o.subrange(8, 264)[t] == lens[t] by {
        assert(o.subrange(0, 264)[8 + t] == o[8 + t]);
        assert(head[8 + t] == lens[t]);
    }
    assert(o.subrange(8, 264) =~= lens);
    assert forall|t: int| 0 <= t < pbytes.len() implies o.skip(264)[t] == pbytes[t] by {
        assert(o[264 + t] == pbytes[t]);
    }
    assert(o.skip(264) =~= pbytes);
    let body = payload_bits(o.subrange(8, 264), inp);
    assert(crate::bits::stream_bits(o.skip(264)) == body + Seq::new(
        crate::bits::pad_len(body.len()),
        |k: int| false,
    ));
    lemma_stream_round_trip(o, inp);
}

/// The big-endian value of the first 8 bytes, folded most significant first.
pub open spec fn be64_val_fold(s: Seq<u8>, k: int, acc: u64) -> u64
    decreases 8 - k,
{
    if k >= 8 {
        acc
    } else {
        be64_val_fold(s, k + 1, ((acc << 8u64) | (s[k] as u64)) as u64)
    }
}

pub open spec fn be64_val(s: Seq<u8>) -> u64 {
    be64_val_fold(s, 0, 0)
}

fn read_be64(bytes: &Vec<u8>) -> (n: u64)
    requires
        bytes@.len() >= 8,
    ensures
        n == be64_val(bytes@.subrange(0, 8)),
{
    let ghost s8 = bytes@.subrange(0, 8);
    let mut n: u64 = 0;
    let mut k: usize = 0;
    while k < 8
        invariant
            k <= 8,
            bytes@.len() >= 8,
            s8 == bytes@.subrange(0, 8),
            be64_val_fold(s8, k as int, n) == be64_val(s8),
        decreases 8 - k,
    {
        proof {
            assert(s8[k as int] == bytes@[k as int]);
        }
        n = (n << 8u64) | (bytes[k] as u64);
        k += 1;
    }
    n
}

/// Decompress a stream produced by `encode`: read the count and the length
/// vector, rebuild the canonical code table, then match codes against a
/// 64-bit window until the declared number of symbols has been emitted.
///
/// A stream shorter than its 264-byte header is refused outright, as is a
/// length vector with an entry above the 32-bit window width; a payload that
/// runs out before the declared count, or a window no code matches, stops
/// the decoder with the matching error.
#[verifier::rlimit(100)]
pub fn decode(bytes: &Vec<u8>) -> (r: Result<Vec<u8>, CodecError>)
    ensures
        bytes@.len() < 264 ==> r == Err::<Vec<u8>, CodecError>(CodecError::TruncatedStream),
        (r == Err::<Vec<u8>, CodecError>(CodecError::OversizedCode)) <==> (bytes@.len() >= 264
            && exists|b: int| 0 <= b < 256 && #[trigger] bytes@[8 + b] > 32),
        r is Ok ==> r.unwrap()@.len() == be64_val(bytes@.subrange(0, 8)),
        r is Ok ==> forall|k: int|
            0 <= k < r.unwrap()@.len() ==> bytes@[8 + (#[trigger] r.unwrap()@[k]) as int] > 0,
        (bytes@.len() >= 264 && be64_val(bytes@.subrange(0, 8)) == 0 && (forall|b: int|
            0 <= b < 256 ==> !(#[trigger] bytes@[8 + b] > 32))) ==> r is Ok,
        (bytes@.len() >= 264 && (forall|b: int| 0 <= b < 256 ==> !(#[trigger] bytes@[8 + b]
            > 32))) ==> (match r {
            Ok(v) => spec_decode(
                used_codes(bytes@.subrange(8, 264)),
                crate::bits::stream_bits(bytes@.skip(264)),
                0,
                be64_val(bytes@.subrange(0, 8)) as nat,
            ) == Ok::<Seq<u8>, CodecError>(v@),
            Err(e) => spec_decode(
                used_codes(bytes@.subrange(8, 264)),
                crate::bits::stream_bits(bytes@.skip(264)),
                0,
                be64_val(bytes@.subrange(0, 8)) as nat,
            ) == Err::<Seq<u8>, CodecError>(e),
        }),
{
    if bytes.len() < 264 {
        return Err(CodecError::TruncatedStream);
    }
    let n_syms = read_be64(bytes);
    let mut lens: Vec<u8> = Vec::new();
    let mut k: usize = 0;
    while k < 256
        invariant
            k <= 256,
            bytes@.len() >= 264,
            lens@.len() == k,
            forall|t: int| 0 <= t < k ==> lens@[t] == bytes@[8 + t],
        decreases 256 - k,
    {
        lens.push(bytes[8 + k]);
        k += 1;
    }
    k = 0;
    while k < 256
        invariant
            k <= 256,
            bytes@.len() >= 264,
            lens@.len() == 256,
            forall|t: int| 0 <= t < 256 ==> lens@[t] == bytes@[8 + t],
            forall|t: int| 0 <= t < k ==> lens@[t] <= 32,
        decreases 256 - k,
    {
        if lens[k] > 32 {
            proof {
                assert(bytes@[8 + k as int] > 32);
            }
            return Err(CodecError::OversizedCode);
        }
        k += 1;
    }
    proof {
        assert forall|b: int| 0 <= b < 256 implies !(#[trigger] bytes@[8 + b] > 32) by {
            assert(lens@[b] == bytes@[8 + b]);
            assert(lens@[b] <= 32);
        }
        assert(lens@ =~= bytes@.subrange(8, 264));
    }
    let alphabet = lengths_to_codes(&lens);
    let mut codes: Vec<Code> = Vec::new();
    k = 0;
    while k < 256
        invariant
            k <= 256,
            bytes@.len() >= 264,
            lens@.len() == 256,
            alphabet@.len() == 256,
            forall|t: int| 0 <= t < 256 ==> lens@[t] == bytes@[8 + t],
            forall|t: int| 0 <= t < 256 ==> lens@[t] <= 32,
            forall|t: int| 0 <= t < 256 ==> (#[trigger] alphabet@[t]).len == lens@[t],
            forall|t: int|
                0 <= t < 256 && lens@[t] > 0 ==> (#[trigger] alphabet@[t]).symbol == Some(
                    t as u8,
                ),
            forall|t: int|
                0 <= t < 256 && lens@[t] > 0 ==> (#[trigger] alphabet@[t]).code == canon_code(
                    lens@,
                    t,
                ),
            codes@ == used_codes_upto(lens@, k as int),
            forall|ci: int| 0 <= ci < codes@.len() ==> 1 <= (#[trigger] codes@[ci]).len <= 32,
            forall|ci: int|
                0 <= ci < codes@.len() ==> (#[trigger] codes@[ci]).symbol is Some && lens@[
                    codes@[ci].symbol.unwrap() as int
                ] > 0,
        decreases 256 - k,
    {
        if alphabet[k].len > 0 {
            proof {
                lemma_first_code_bound(lens@, lens@[k as int] as nat);
                lemma_pow2_le((lens@[k as int] + 10) as nat, 43);
                lemma2_to64();
                lemma2_to64_rest();
                crate::tree::lemma_count_byte_le_len(lens@.take(k as int), lens@[k as int]);
                assert(0 <= canon_code(lens@, k as int) < 0x100000000000);
                assert(alphabet@[k as int] == (Code {
                    code: canon_code(lens@, k as int) as u64,
                    len: lens@[k as int],
                    symbol: Some(k as u8),
                }));
            }
            codes.push(alphabet[k]);
        }
        k += 1;
    }
    let ghost pbits = crate::bits::stream_bits(bytes@.skip(264));
    proof {
        crate::bits::lemma_stream_bits_len(bytes@.skip(264));
        assert(pbits.len() == 8 * (bytes@.len() - 264));
    }
    let mut window: u64 = 0;
    let mut pos: usize = 264;
    k = 0;
    proof {
        assert forall|j: int| 0 <= j < 64 implies (#[trigger] wbit(0u64, j)) == (j < 64 && bit_at(
            pbits,
            8 * 0 - 64 + j,
        )) by {
            lemma_wbit_zero(j);
        }
        assert(window_reflects(0u64, pbits, -64, 0));
    }
    while k < 8
        invariant
            k <= 8,
            bytes@.len() >= 264,
            264 <= pos <= bytes@.len(),
            pbits == crate::bits::stream_bits(bytes@.skip(264)),
            pbits.len() == 8 * (bytes@.len() - 264),
            pos - 264 == if 8 * (k as int) <= pbits.len() {
                k as int
            } else {
                bytes@.len() - 264
            },
            window_reflects(window, pbits, 8 * (k as int) - 64, 0),
        decreases 8 - k,
    {
        let ghost pos0 = pos as int;
        let ghost w0 = window;
        let inbounds = pos < bytes.len();
        let byte: u8 = if inbounds {
            bytes[pos]
        } else {
            0
        };
        if inbounds {
            pos += 1;
        }
        proof {
            assert forall|t: int| 0 <= t < 8 implies crate::bits::byte_bit(byte, t) == bit_at(
                pbits,
                8 * (k as int) + t,
            ) by {
                if pos0 < bytes@.len() {
                    assert(pos0 - 264 == k as int);
                    crate::bits::lemma_stream_bits_index(bytes@.skip(264), pos0 - 264, t);
                    assert(bytes@.skip(264)[pos0 - 264] == bytes@[pos0]);
                } else {
                    lemma_byte_bit_zero(t);
                    assert(8 * (k as int) + t >= pbits.len());
                }
            }
            assert(feeds(byte, pbits, 8 * (k as int)));
        }
        window = (window << 8u64) | (byte as u64);
        proof {
            lemma_reflect_shl(w0, pbits, 8 * (k as int) - 64, 0, 8);
            assert((byte as u64) << 0u64 == byte as u64) by (bit_vector);
            lemma_reflect_refill((w0 << 8u64) as u64, byte, pbits, 8 * (k as int) - 56, 8);
            assert(window == ((w0 << 8u64) as u64 | (((byte as u64) << ((8 - 8) as u64)) as u64))
                as u64);
            assert(window_reflects(window, pbits, 8 * ((k + 1) as int) - 64, 0));
        }
        k += 1;
    }
    let total_bits: u128 = 8u128 * ((bytes.len() - 264) as u128);
    let mut bits_used: u128 = 0;
    let mut shift: usize = 0;
    let mut emitted: u64 = 0;
    let mut decoded: Vec<u8> = Vec::new();
    let ghost n0 = n_syms as nat;
    proof {
        let full = spec_decode(codes@, pbits, 0, n0);
        if full is Ok {
            assert(Seq::<u8>::empty() + full.unwrap() =~= full.unwrap());
        }
    }
    while emitted < n_syms
        invariant
            bytes@.len() >= 264,
            lens@.len() == 256,
            lens@ == bytes@.subrange(8, 264),
            n_syms == be64_val(bytes@.subrange(0, 8)),
            n0 == n_syms as nat,
            forall|t: int| 0 <= t < 256 ==> lens@[t] == bytes@[8 + t],
            forall|t: int| 0 <= t < 256 ==> lens@[t] <= 32,
            forall|b: int| 0 <= b < 256 ==> !(#[trigger] bytes@[8 + b] > 32),
            codes@ == used_codes(lens@),
            forall|ci: int| 0 <= ci < codes@.len() ==> 1 <= (#[trigger] codes@[ci]).len <= 32,
            forall|ci: int|
                0 <= ci < codes@.len() ==> (#[trigger] codes@[ci]).symbol is Some && lens@[
                    codes@[ci].symbol.unwrap() as int
                ] > 0,
            decoded@.len() == emitted,
            emitted <= n_syms,
            264 <= pos <= bytes@.len(),
            shift < 8,
            bits_used <= total_bits,
            total_bits == pbits.len(),
            pbits == crate::bits::stream_bits(bytes@.skip(264)),
            pbits.len() == 8 * (bytes@.len() - 264),
            window_reflects(window, pbits, bits_used as int, shift as int),
            8 * (pos - 264) == if bits_used as int + 64 - shift <= pbits.len() {
                bits_used as int + 64 - shift
            } else {
                pbits.len() as int
            },
            (bits_used as int + 64 - shift as int) % 8 == 0,
            spec_decode(codes@, pbits, 0, n0) == (match spec_decode(
                codes@,
                pbits,
                bits_used as int,
                (n_syms - emitted) as nat,
            ) {
                Ok(rest) => Ok::<Seq<u8>, CodecError>(decoded@ + rest),
                Err(e) => Err::<Seq<u8>, CodecError>(e),
            }),
            forall|t: int|
                0 <= t < decoded@.len() ==> bytes@[8 + (#[trigger] decoded@[t]) as int] > 0,
        decreases n_syms - emitted,
    {
        let ghost rem = (n_syms - emitted) as nat;
        let ghost posb = bits_used as int;
        let c = match match_code(window, &codes) {
            Ok(c) => c,
            Err(e) => {
                proof {
                    lemma_no_match_correspond(codes@, pbits, posb, window, shift as int, 0);
                    assert(spec_decode(codes@, pbits, posb, rem) == Err::<Seq<u8>, CodecError>(
                        CodecError::UnmatchedWindow,
                    ));
                }
                return Err(e);
            },
        };
        proof {
            let wi = choose|i: int|
                0 <= i < codes@.len() && codes@[i] == c && code_matches(
                    window,
                    #[trigger] codes@[i],
                ) && (forall|j: int| 0 <= j < i ==> !code_matches(window, codes@[j]));
            assert(codes@[wi].symbol is Some);
            lemma_first_match_correspond(codes@, pbits, posb, window, shift as int, wi, 0);
            assert(first_match_from(codes@, pbits, posb, 0) == Some(wi));
        }
        if bits_used + (c.len as u128) > total_bits {
            proof {
                assert(spec_decode(codes@, pbits, posb, rem) == Err::<Seq<u8>, CodecError>(
                    CodecError::TruncatedStream,
                ));
            }
            return Err(CodecError::TruncatedStream);
        }
        bits_used = bits_used + (c.len as u128);
        let sym: u8 = match c.symbol {
            Some(s) => s,
            None => 0,
        };
        let ghost decoded0 = decoded@;
        decoded.push(sym);
        emitted = emitted + 1;
        let ghost w1 = window;
        window = window << (c.len as u64);
        proof {
            lemma_reflect_shl(w1, pbits, posb, shift as int, c.len as u64);
        }
        shift = shift + (c.len as usize);
        proof {
            let inner = spec_decode(codes@, pbits, posb + c.len, (rem - 1) as nat);
            assert(spec_decode(codes@, pbits, posb, rem) == (match inner {
                Ok(rest) => Ok::<Seq<u8>, CodecError>(
                    Seq::empty().push(c.symbol.unwrap()) + rest,
                ),
                Err(e) => Err::<Seq<u8>, CodecError>(e),
            }));
            if inner is Ok {
                assert(decoded0 + (Seq::empty().push(sym) + inner.unwrap()) =~= decoded@
                    + inner.unwrap());
            }
        }
        while shift >= 8
            invariant
                shift <= 39,
                bytes@.len() >= 264,
                264 <= pos <= bytes@.len(),
                pbits == crate::bits::stream_bits(bytes@.skip(264)),
                pbits.len() == 8 * (bytes@.len() - 264),
                window_reflects(window, pbits, bits_used as int, shift as int),
                8 * (pos - 264) == if bits_used as int + 64 - shift <= pbits.len() {
                    bits_used as int + 64 - shift
                } else {
                    pbits.len() as int
                },
                (bits_used as int + 64 - shift as int) % 8 == 0,
            decreases shift,
        {
            let ghost pos0 = pos as int;
            let ghost s0 = shift as int;
            let ghost w0 = window;
            let ghost x = bits_used as int + 64 - s0;
            let inbounds = pos < bytes.len();
            let byte: u8 = if inbounds {
                bytes[pos]
            } else {
                0
            };
            if inbounds {
                pos += 1;
            }
            proof {
                assert forall|t: int| 0 <= t < 8 implies crate::bits::byte_bit(byte, t) == bit_at(
                    pbits,
                    x + t,
                ) by {
                    if pos0 < bytes@.len() {
                        assert(8 * (pos0 - 264) == x);
                        crate::bits::lemma_stream_bits_index(bytes@.skip(264), pos0 - 264, t);
                        assert(bytes@.skip(264)[pos0 - 264] == bytes@[pos0]);
                    } else {
                        lemma_byte_bit_zero(t);
                        assert(x + t >= pbits.len());
                    }
                }
                assert(feeds(byte, pbits, x));
            }
            window = window | ((byte as u64) << ((shift - 8) as u64));
            proof {
                lemma_reflect_refill(w0, byte, pbits, bits_used as int, s0);
            }
            shift -= 8;
        }
    }
    proof {
        assert(spec_decode(codes@, pbits, bits_used as int, (n_syms - emitted) as nat)
            == Ok::<Seq<u8>, CodecError>(Seq::empty()));
        assert(decoded@ + Seq::<u8>::empty() =~= decoded@);
        assert(spec_decode(codes@, pbits, 0, n0) == Ok::<Seq<u8>, CodecError>(decoded@));
    }
    Ok(decoded)
}

/// The count written by the encoder is the count the decoder reads: folding
/// the 8 big-endian bytes of `n` yields `n` again.
pub proof fn lemma_header_count_round_trip(n: u64)
    ensures
        be64_val(be64_bytes(n)) == n,
{
    let s = be64_bytes(n);
    let b0 = s[0];
    let b1 = s[1];
    let b2 = s[2];
    let b3 = s[3];
    let b4 = s[4];
    let b5 = s[5];
    let b6 = s[6];
    let b7 = s[7];
    let v1: u64 = (0u64 << 8u64) | (b0 as u64);
    let v2: u64 = (v1 << 8u64) | (b1 as u64);
    let v3: u64 = (v2 << 8u64) | (b2 as u64);
    let v4: u64 = (v3 << 8u64) | (b3 as u64);
    let v5: u64 = (v4 << 8u64) | (b4 as u64);
    let v6: u64 = (v5 << 8u64) | (b5 as u64);
    let v7: u64 = (v6 << 8u64) | (b6 as u64);
    let v8: u64 = (v7 << 8u64) | (b7 as u64);
    assert(be64_val_fold(s, 0, 0) == be64_val_fold(s, 1, v1));
    assert(be64_val_fold(s, 1, v1) == be64_val_fold(s, 2, v2));
    assert(be64_val_fold(s, 2, v2) == be64_val_fold(s, 3, v3));
    assert(be64_val_fold(s, 3, v3) == be64_val_fold(s, 4, v4));
    assert(be64_val_fold(s, 4, v4) == be64_val_fold(s, 5, v5));
    assert(be64_val_fold(s, 5, v5) == be64_val_fold(s, 6, v6));
    assert(be64_val_fold(s, 6, v6) == be64_val_fold(s, 7, v7));
    assert(be64_val_fold(s, 7, v7) == be64_val_fold(s, 8, v8));
    assert(be64_val_fold(s, 8, v8) == v8);
    assert(v8 == n) by (bit_vector)
        requires
            b0 == (n >> 56u64) as u8,
            b1 == (n >> 48u64) as u8,
            b2 == (n >> 40u64) as u8,
            b3 == (n >> 32u64) as u8,
            b4 == (n >> 24u64) as u8,
            b5 == (n >> 16u64) as u8,
            b6 == (n >> 8u64) as u8,
            b7 == (n >> 0u64) as u8,
            v8 == (((((((((((((((0u64 << 8u64) | (b0 as u64)) << 8u64) | (b1 as u64)) << 8u64) | (
            b2 as u64)) << 8u64) | (b3 as u64)) << 8u64) | (b4 as u64)) << 8u64) | (b5 as u64))
                << 8u64) | (b6 as u64)) << 8u64) | (b7 as u64),
    ;
}

/// Same-length canonical codes are distinct: symbols of one length receive
/// strictly increasing code values in ascending byte order.
pub proof fn lemma_same_length_codes_distinct(lens: Seq<u8>, b1: int, b2: int)
    requires
        lens.len() == 256,
        0 <= b1 < b2 < 256,
        lens[b1] > 0,
        lens[b1] == lens[b2],
    ensures
        canon_code(lens, b1) < canon_code(lens, b2),
{
    lemma_count_byte_take_monotone(lens, b1, b2, lens[b1]);
}

/// Counting a value over a longer prefix that contains one more occurrence
/// strictly grows the count.
proof fn lemma_count_byte_take_monotone(s: Seq<u8>, i: int, j: int, v: u8)
    requires
        0 <= i < j <= s.len(),
        s[i] == v,
    ensures
        count_byte(s.take(i), v) < count_byte(s.take(j), v),
    decreases j - i,
{
    if j == i + 1 {
        assert(s.take(j).drop_last() =~= s.take(i));
        assert(s.take(j).last() == s[i]);
    } else {
        lemma_count_byte_take_monotone(s, i, j - 1, v);
        assert(s.take(j).drop_last() =~= s.take(j - 1));
    }
}

/// The first code of a longer length lies beyond every shorter code's
/// range, scaled by the level difference.
proof fn lemma_first_code_growth(lens: Seq<u8>, l1: nat, l2: nat)
    requires
        1 <= l1 < l2,
    ensures
        first_code(lens, l2) >= (first_code(lens, l1) + count_byte(lens, l1 as u8)) * pow2(
            (l2 - l1) as nat,
        ),
    decreases l2,
{
    let base = first_code(lens, l1) + count_byte(lens, l1 as u8);
    if l2 == l1 + 1 {
        assert(first_code(lens, l2) == (first_code(lens, (l2 - 1) as nat) + count_byte(
            lens,
            (l2 - 1) as u8,
        )) * 2);
        assert(pow2(1) == 2) by {
            lemma2_to64();
        }
    } else {
        lemma_first_code_growth(lens, l1, (l2 - 1) as nat);
        assert(first_code(lens, l2) == (first_code(lens, (l2 - 1) as nat) + count_byte(
            lens,
            (l2 - 1) as u8,
        )) * 2);
        lemma_pow2_unfold((l2 - l1) as nat);
        assert(first_code(lens, (l2 - 1) as nat) >= base * pow2((l2 - 1 - l1) as nat));
        assert(first_code(lens, l2) >= base * pow2((l2 - 1 - l1) as nat) * 2) by (nonlinear_arith)
            requires
                first_code(lens, l2) == (first_code(lens, (l2 - 1) as nat) + count_byte(
                    lens,
                    (l2 - 1) as u8,
                )) * 2,
                first_code(lens, (l2 - 1) as nat) >= base * pow2((l2 - 1 - l1) as nat),
        ;
        assert(base * pow2((l2 - 1 - l1) as nat) * 2 == base * pow2((l2 - l1) as nat))
            by (nonlinear_arith)
            requires
                pow2((l2 - l1) as nat) == 2 * pow2((l2 - 1 - l1) as nat),
        ;
    }
}

/// No canonical code is a bit-prefix of another: same-length codes are
/// distinct, and truncating a longer code to a shorter length lands beyond
/// every code of that shorter length.
pub proof fn lemma_canonical_prefix_free(lens: Seq<u8>, b1: int, b2: int)
    requires
        lens.len() == 256,
        0 <= b1 < 256,
        0 <= b2 < 256,
        b1 != b2,
        lens[b1] > 0,
        lens[b2] > 0,
        lens[b1] <= lens[b2],
    ensures
        lens[b1] == lens[b2] ==> canon_code(lens, b1) != canon_code(lens, b2),
        lens[b1] < lens[b2] ==> canon_code(lens, b2) / (pow2((lens[b2] - lens[b1]) as nat) as int)
            != canon_code(lens, b1),
{
    let l1 = lens[b1] as nat;
    let l2 = lens[b2] as nat;
    if l1 == l2 {
        if b1 < b2 {
            lemma_same_length_codes_distinct(lens, b1, b2);
        } else {
            lemma_same_length_codes_distinct(lens, b2, b1);
        }
    } else {
        // The rank stays below the per-length count, so a shorter code is
        // below `first_code(l1) + count(l1)`; the longer code, truncated by
        // the level difference, is at or above that bound.
        let base = first_code(lens, l1) + count_byte(lens, l1 as u8);
        lemma_count_byte_take_monotone(lens, b1, 256, lens[b1]);
        assert(lens.take(256) =~= lens);
        assert(rank(lens, b1) < count_byte(lens, l1 as u8)) by {
            crate::tree::lemma_count_byte_le_len(lens.take(b1), lens[b1]);
        }
        assert(canon_code(lens, b1) < base);
        lemma_first_code_growth(lens, l1, l2);
        lemma_first_code_bound(lens, l1);
        lemma_pow2_pos((l2 - l1) as nat);
        assert(canon_code(lens, b2) >= first_code(lens, l2));
        assert(canon_code(lens, b2) / (pow2((l2 - l1) as nat) as int) >= base) by (nonlinear_arith)
            requires
                canon_code(lens, b2) >= base * pow2((l2 - l1) as nat),
                pow2((l2 - l1) as nat) >= 1,
                base >= 0,
        ;
    }
}

/// Two in-range codes that both match one window overlap as bit-prefixes:
/// the longer one, truncated by the length difference, equals the shorter.
/// Together with the prefix-freeness of the canonical table this makes the
/// decoder's match unique.
pub proof fn lemma_window_match_unique(window: u64, c1: Code, c2: Code)
    requires
        code_matches(window, c1),
        code_matches(window, c2),
        c1.code < (1u64 << (c1.len as u64)),
        c2.code < (1u64 << (c2.len as u64)),
        c1.len <= c2.len,
    ensures
        c2.code >> ((c2.len - c1.len) as u64) == c1.code,
{
    let l1 = c1.len;
    let l2 = c2.len;
    let a = c1.code;
    let b = c2.code;
    assert((window & lalign_mask(l1)) == ((a << ((64 - l1) as u64)) as u64));
    assert((window & lalign_mask(l2)) == ((b << ((64 - l2) as u64)) as u64));
    assert(lalign_mask(l1) == (u64::MAX << ((64 - l1) as u64)) as u64);
    assert(lalign_mask(l2) == (u64::MAX << ((64 - l2) as u64)) as u64);
    assert(b >> ((l2 - l1) as u64) == a) by (bit_vector)
        requires
            1 <= l1 <= 32,
            l1 <= l2 <= 32,
            a < (1u64 << (l1 as u64)),
            b < (1u64 << (l2 as u64)),
            (window & ((u64::MAX << ((64 - l1) as u64)) as u64)) == ((a << ((64 - l1) as u64))
                as u64),
            (window & ((u64::MAX << ((64 - l2) as u64)) as u64)) == ((b << ((64 - l2) as u64))
                as u64),
    ;
}

/// The scaled Kraft sum of the lengths up to `k`: each symbol of length `j`
/// contributes `2^(32 - j)`.
pub open spec fn kraft_scaled(lens: Seq<u8>, k: nat) -> int
    decreases k,
{
    if k == 0 {
        0
    } else {
        kraft_scaled(lens, (k - 1) as nat) + count_byte(lens, k as u8) * pow2((32 - k) as nat)
    }
}

/// The canonical construction tracks the Kraft partial sums exactly: the
/// first unused code of each length, scaled to the common denominator, is
/// the mass of all lengths up to it.
proof fn lemma_first_code_kraft(lens: Seq<u8>, k: nat)
    requires
        1 <= k <= 32,
    ensures
        (first_code(lens, k) + count_byte(lens, k as u8)) * pow2((32 - k) as nat)
            == kraft_scaled(lens, k),
    decreases k,
{
    let p = pow2((32 - k) as nat);
    let ck = count_byte(lens, k as u8) as int;
    if k == 1 {
        assert(first_code(lens, 1) == 0);
        assert((first_code(lens, 1) + ck) * p == ck * p) by (nonlinear_arith)
            requires
                first_code(lens, 1) == 0,
        ;
        assert(kraft_scaled(lens, 1) == kraft_scaled(lens, 0) + ck * p);
    } else {
        lemma_first_code_kraft(lens, (k - 1) as nat);
        let fk = first_code(lens, k);
        let fk1 = first_code(lens, (k - 1) as nat);
        let ck1 = count_byte(lens, (k - 1) as u8) as int;
        assert(fk == (fk1 + ck1) * 2);
        lemma_pow2_unfold((32 - (k - 1)) as nat);
        assert(pow2((33 - k) as nat) == 2 * pow2((32 - k) as nat));
        assert(fk * pow2((32 - k) as nat) == (fk1 + ck1) * pow2((33 - k) as nat))
            by (nonlinear_arith)
            requires
                fk == (fk1 + ck1) * 2,
                pow2((33 - k) as nat) == 2 * pow2((32 - k) as nat),
        ;
        assert((fk1 + ck1) * pow2((33 - k) as nat) == kraft_scaled(lens, (k - 1) as nat));
        assert((fk + ck) * p == fk * p + ck * p) by (nonlinear_arith);
        assert(kraft_scaled(lens, k) == kraft_scaled(lens, (k - 1) as nat) + ck * p);
    }
}

/// A length vector whose Kraft sum does not overflow the unit gives every
/// symbol a code value that fits inside its own bit-length.
pub proof fn lemma_codes_fit_lengths(lens: Seq<u8>, b: int)
    requires
        lens.len() == 256,
        0 <= b < 256,
        1 <= lens[b] <= 32,
        forall|v: int| 0 <= v < 256 ==> #[trigger] lens[v] <= 32,
        kraft_scaled(lens, 32) <= pow2(32),
    ensures
        canon_code(lens, b) < pow2(lens[b] as nat),
{
    let l = lens[b] as nat;
    lemma_first_code_kraft(lens, l);
    lemma_kraft_scaled_monotone(lens, l, 32);
    lemma_count_byte_take_monotone(lens, b, 256, lens[b]);
    assert(lens.take(256) =~= lens);
    assert(canon_code(lens, b) < first_code(lens, l) + count_byte(lens, l as u8));
    let m = pow2((32 - l) as nat);
    lemma_pow2_pos((32 - l) as nat);
    assert((first_code(lens, l) + count_byte(lens, l as u8)) * m <= pow2(32));
    assert(pow2(32) == pow2(l) * m) by {
        vstd::arithmetic::power2::lemma_pow2_adds(l, (32 - l) as nat);
    }
    assert(first_code(lens, l) + count_byte(lens, l as u8) <= pow2(l)) by (nonlinear_arith)
        requires
            (first_code(lens, l) + count_byte(lens, l as u8)) * m <= pow2(l) * m,
            m >= 1,
    ;
}

proof fn lemma_kraft_scaled_monotone(lens: Seq<u8>, k1: nat, k2: nat)
    requires
        k1 <= k2 <= 32,
    ensures
        kraft_scaled(lens, k1) <= kraft_scaled(lens, k2),
    decreases k2,
{
    if k1 < k2 {
        lemma_kraft_scaled_monotone(lens, k1, (k2 - 1) as nat);
        lemma_pow2_pos((32 - k2) as nat);
        assert(count_byte(lens, k2 as u8) * pow2((32 - k2) as nat) >= 0) by (nonlinear_arith)
            requires
                count_byte(lens, k2 as u8) >= 0,
                pow2((32 - k2) as nat) >= 1,
        ;
    }
}

/// Bit `j` (0 = most significant) of a 64-bit window.
pub open spec fn wbit(w: u64, j: int) -> bool {
    (w >> (63 - j) as u64) & 1 == 1
}

proof fn lemma_low_bits_eq(a: u64, b: u64, k: u64)
    requires
        k <= 64,
        forall|j: u64| j < k ==> #[trigger] ((a >> j) & 1) == ((b >> j) & 1),
    ensures
        k < 64 ==> (a & (((1u64 << k) - 1) as u64)) == (b & (((1u64 << k) - 1) as u64)),
        k == 64 ==> a == b,
    decreases k,
{
    if k == 0 {
        assert((a & (((1u64 << 0u64) - 1) as u64)) == (b & (((1u64 << 0u64) - 1) as u64))) by (bit_vector);
    } else {
        lemma_low_bits_eq(a, b, (k - 1) as u64);
        assert((a >> ((k - 1) as u64)) & 1 == (b >> ((k - 1) as u64)) & 1);
        if k < 64 {
            assert((a & (((1u64 << k) - 1) as u64)) == (b & (((1u64 << k) - 1) as u64))) by (bit_vector)
                requires
                    1 <= k < 64,
                    (a & (((1u64 << ((k - 1) as u64)) - 1) as u64)) == (b & (((1u64 << ((k - 1)
                        as u64)) - 1) as u64)),
                    (a >> ((k - 1) as u64)) & 1 == (b >> ((k - 1) as u64)) & 1,
            ;
        } else {
            assert(a == b) by (bit_vector)
                requires
                    (a & (((1u64 << 63u64) - 1) as u64)) == (b & (((1u64 << 63u64) - 1) as u64)),
                    (a >> 63u64) & 1 == (b >> 63u64) & 1,
            ;
        }
    }
}

/// Two windows agreeing on every bit are equal.
proof fn lemma_u64_bit_ext(a: u64, b: u64)
    requires
        forall|j: int| 0 <= j < 64 ==> (#[trigger] wbit(a, j)) == wbit(b, j),
    ensures
        a == b,
{
    assert forall|j: u64| j < 64 implies #[trigger] ((a >> j) & 1) == ((b >> j) & 1) by {
        let t: int = 63 - j as int;
        assert(0 <= t < 64);
        assert(wbit(a, t) == wbit(b, t));
        assert(((63 - t) as u64) == j);
        assert(((a >> j) & 1 == 1) == ((b >> j) & 1 == 1));
        assert((a >> j) & 1 == (b >> j) & 1) by (bit_vector)
            requires
                ((a >> j) & 1 == 1) == ((b >> j) & 1 == 1),
        ;
    }
    lemma_low_bits_eq(a, b, 64);
}

/// The bit of a stream at position `x`, zero-extended past either end.
pub open spec fn bit_at(bits: Seq<bool>, x: int) -> bool {
    0 <= x < bits.len() && bits[x]
}

/// The window holds the stream bits from `pos` on in its top `64 - invalid`
/// positions; the remaining low positions are clear.
pub open spec fn window_reflects(w: u64, bits: Seq<bool>, pos: int, invalid: int) -> bool {
    forall|j: int|
        0 <= j < 64 ==> (#[trigger] wbit(w, j)) == (j < 64 - invalid && bit_at(bits, pos + j))
}

/// Bit `t` of the code of `c`, most significant of its `len` bits first.
pub open spec fn code_bit(c: Code, t: int) -> bool {
    (c.code >> ((c.len - 1 - t) as u64)) & 1 == 1
}

/// The entry's code bits stand at position `pos` of the stream, reading
/// absent bits as zero.
pub open spec fn spec_matches_at(bits: Seq<bool>, pos: int, c: Code) -> bool {
    1 <= c.len <= 32 && (forall|t: int|
        0 <= t < c.len ==> (#[trigger] bit_at(bits, pos + t)) == code_bit(c, t))
}

proof fn lemma_wbit_shl(w: u64, l: u64, j: int)
    requires
        0 <= j < 64,
        l <= 32,
    ensures
        wbit((w << l) as u64, j) == if j + l < 64 {
            wbit(w, j + l)
        } else {
            false
        },
{
    let ju = (63 - j) as u64;
    if j + l < 64 {
        assert((((w << l) >> ju) & 1) == ((w >> ((ju - l) as u64)) & 1)) by (bit_vector)
            requires
                l <= ju <= 63,
        ;
        assert(((63 - (j + l)) as u64) == (ju - l) as u64);
    } else {
        assert((((w << l) >> ju) & 1) == 0) by (bit_vector)
            requires
                ju < l,
        ;
    }
}

proof fn lemma_wbit_or_refill(w: u64, b: u8, s: int, j: int)
    requires
        8 <= s <= 39,
        0 <= j < 64,
    ensures
        64 - s <= j < 72 - s ==> wbit((w | (((b as u64) << ((s - 8) as u64)) as u64)) as u64, j)
            == (wbit(w, j) || crate::bits::byte_bit(b, (j - 64 + s) as int)),
        !(64 - s <= j < 72 - s) ==> wbit((w | (((b as u64) << ((s - 8) as u64)) as u64)) as u64, j)
            == wbit(w, j),
{
    let ju = (63 - j) as u64;
    let sh = (s - 8) as u64;
    assert((((w | ((b as u64) << sh)) >> ju) & 1 == 1) == (((w >> ju) & 1 == 1) || ((((b as u64)
        << sh) >> ju) & 1 == 1))) by (bit_vector);
    if 64 - s <= j < 72 - s {
        let t = (j - 64 + s) as u64;
        assert(((((b as u64) << sh) >> ju) & 1 == 1) == ((b >> ((7 - t) as u8)) & 1 == 1))
            by (bit_vector)
            requires
                sh <= 31,
                sh <= ju,
                ju < sh + 8,
                t == 7 - ((ju - sh) as u64),
        ;
    } else {
        assert((((b as u64) << sh) >> ju) & 1 == 0) by (bit_vector)
            requires
                sh <= 31,
                ju < sh || ju >= sh + 8,
        ;
    }
}

proof fn lemma_aligned_bit(c: u64, l: u64, t: int)
    requires
        1 <= l <= 32,
        0 <= t < 64,
    ensures
        t < l ==> wbit((c << ((64 - l) as u64)) as u64, t) == ((c >> ((l - 1 - t) as u64)) & 1
            == 1),
        t >= l ==> !wbit((c << ((64 - l) as u64)) as u64, t),
{
    let ju = (63 - t) as u64;
    let sh = (64 - l) as u64;
    if t < l {
        assert((((c << sh) >> ju) & 1) == ((c >> ((ju - sh) as u64)) & 1)) by (bit_vector)
            requires
                sh <= ju <= 63,
        ;
        assert(((l - 1 - t) as u64) == (ju - sh) as u64);
    } else {
        assert(((c << sh) >> ju) & 1 == 0) by (bit_vector)
            requires
                ju < sh,
        ;
    }
}

proof fn lemma_mask_and_bit(w: u64, l: u64, t: int)
    requires
        1 <= l <= 32,
        0 <= t < 64,
    ensures
        t < l ==> wbit((w & ((u64::MAX << ((64 - l) as u64)) as u64)) as u64, t) == wbit(w, t),
        t >= l ==> !wbit((w & ((u64::MAX << ((64 - l) as u64)) as u64)) as u64, t),
{
    let ju = (63 - t) as u64;
    let sh = (64 - l) as u64;
    if t < l {
        assert((((w & (u64::MAX << sh)) >> ju) & 1) == ((w >> ju) & 1)) by (bit_vector)
            requires
                sh <= ju <= 63,
        ;
    } else {
        assert(((w & (u64::MAX << sh)) >> ju) & 1 == 0) by (bit_vector)
            requires
                ju < sh,
        ;
    }
}

/// With the window reflecting the stream at `pos`, the mask test of the
/// matcher agrees with the bit-level statement about the stream itself.
proof fn lemma_match_bridge(w: u64, bits: Seq<bool>, pos: int, invalid: int, c: Code)
    requires
        window_reflects(w, bits, pos, invalid),
        0 <= invalid <= 7,
        1 <= c.len <= 32,
    ensures
        code_matches(w, c) <==> spec_matches_at(bits, pos, c),
{
    let l = c.len as u64;
    let m = lalign_mask(c.len);
    let a = (c.code << ((64 - c.len) as u64)) as u64;
    assert(m == (u64::MAX << ((64 - l) as u64)) as u64);
    if code_matches(w, c) {
        assert forall|t: int| 0 <= t < c.len implies (#[trigger] bit_at(bits, pos + t))
            == code_bit(c, t) by {
            lemma_mask_and_bit(w, l, t);
            lemma_aligned_bit(c.code, l, t);
            assert(wbit((w & m) as u64, t) == wbit(a, t));
            assert(wbit(w, t) == bit_at(bits, pos + t));
        }
    }
    if spec_matches_at(bits, pos, c) {
        assert forall|t: int| 0 <= t < 64 implies (#[trigger] wbit((w & m) as u64, t)) == wbit(
            a,
            t,
        ) by {
            lemma_mask_and_bit(w, l, t);
            lemma_aligned_bit(c.code, l, t);
            if t < c.len {
                assert(wbit(w, t) == bit_at(bits, pos + t));
                assert(bit_at(bits, pos + t) == code_bit(c, t));
            }
        }
        lemma_u64_bit_ext((w & m) as u64, a);
        assert((w & m) == a);
    }
}

/// Index of the first table entry whose code stands at `pos`, scanning from
/// entry `k` on.
pub open spec fn first_match_from(codes: Seq<Code>, bits: Seq<bool>, pos: int, k: int) -> Option<
    int,
>
    decreases codes.len() - k,
{
    if k < 0 || k >= codes.len() {
        None
    } else if spec_matches_at(bits, pos, codes[k]) {
        Some(k)
    } else {
        first_match_from(codes, bits, pos, k + 1)
    }
}

/// What the window decoder computes: repeatedly take the first table entry
/// whose code stands at the current bit position, within the stream's bit
/// budget, until `remaining` symbols have been produced.
pub open spec fn spec_decode(
    codes: Seq<Code>,
    bits: Seq<bool>,
    pos: int,
    remaining: nat,
) -> Result<Seq<u8>, CodecError>
    decreases remaining,
{
    if remaining == 0 {
        Ok(Seq::empty())
    } else {
        match first_match_from(codes, bits, pos, 0) {
            None => Err(CodecError::UnmatchedWindow),
            Some(i) => {
                let c = codes[i];
                if pos + c.len > bits.len() {
                    Err(CodecError::TruncatedStream)
                } else {
                    match spec_decode(codes, bits, pos + c.len, (remaining - 1) as nat) {
                        Ok(rest) => Ok(Seq::empty().push(c.symbol.unwrap()) + rest),
                        Err(e) => Err(e),
                    }
                }
            },
        }
    }
}

/// The code table the decoder scans: one entry per symbol with a positive
/// length, in ascending symbol order.
pub open spec fn used_codes_upto(lens: Seq<u8>, n: int) -> Seq<Code>
    decreases n,
{
    if n <= 0 {
        Seq::empty()
    } else if lens[n - 1] > 0 {
        used_codes_upto(lens, n - 1).push(
            Code {
                code: canon_code(lens, n - 1) as u64,
                len: lens[n - 1],
                symbol: Some((n - 1) as u8),
            },
        )
    } else {
        used_codes_upto(lens, n - 1)
    }
}

pub open spec fn used_codes(lens: Seq<u8>) -> Seq<Code> {
    used_codes_upto(lens, 256)
}

/// A failed scan of the whole table means the spec finds no match either.
proof fn lemma_no_match_correspond(
    codes: Seq<Code>,
    bits: Seq<bool>,
    pos: int,
    w: u64,
    invalid: int,
    k: int,
)
    requires
        window_reflects(w, bits, pos, invalid),
        0 <= invalid <= 7,
        forall|i: int| 0 <= i < codes.len() ==> 1 <= (#[trigger] codes[i]).len <= 32,
        forall|i: int| 0 <= i < codes.len() ==> !code_matches(w, #[trigger] codes[i]),
        0 <= k,
    ensures
        first_match_from(codes, bits, pos, k) is None,
    decreases codes.len() - k,
{
    if k < codes.len() {
        lemma_match_bridge(w, bits, pos, invalid, codes[k]);
        lemma_no_match_correspond(codes, bits, pos, w, invalid, k + 1);
    }
}

/// The matcher's first hit is the spec's first hit.
proof fn lemma_first_match_correspond(
    codes: Seq<Code>,
    bits: Seq<bool>,
    pos: int,
    w: u64,
    invalid: int,
    i: int,
    k: int,
)
    requires
        window_reflects(w, bits, pos, invalid),
        0 <= invalid <= 7,
        forall|t: int| 0 <= t < codes.len() ==> 1 <= (#[trigger] codes[t]).len <= 32,
        0 <= k <= i < codes.len(),
        code_matches(w, codes[i]),
        forall|j: int| 0 <= j < i ==> !code_matches(w, codes[j]),
    ensures
        first_match_from(codes, bits, pos, k) == Some(i),
    decreases codes.len() - k,
{
    lemma_match_bridge(w, bits, pos, invalid, codes[k]);
    if k < i {
        lemma_first_match_correspond(codes, bits, pos, w, invalid, i, k + 1);
    }
}

/// The 8 bits of `b` are the stream bits starting at position `x`.
pub open spec fn feeds(b: u8, bits: Seq<bool>, x: int) -> bool {
    forall|t: int| 0 <= t < 8 ==> crate::bits::byte_bit(b, t) == bit_at(bits, x + t)
}

/// Consuming `l` bits: shifting the window left moves the viewpoint right
/// and grows the cleared region.
proof fn lemma_reflect_shl(w: u64, bits: Seq<bool>, pos: int, invalid: int, l: u64)
    requires
        window_reflects(w, bits, pos, invalid),
        0 <= invalid,
        invalid + l < 64,
        1 <= l <= 32,
    ensures
        window_reflects((w << l) as u64, bits, pos + l, invalid + l),
{
    assert forall|j: int| 0 <= j < 64 implies (#[trigger] wbit((w << l) as u64, j)) == (j < 64 - (
    invalid + l) && bit_at(bits, pos + l + j)) by {
        lemma_wbit_shl(w, l, j);
        if j + l < 64 {
            assert(wbit(w, j + l) == (j + l < 64 - invalid && bit_at(bits, pos + (j + l))));
        }
    }
}

/// Refilling: a byte that feeds the next unloaded stream position lands in
/// the cleared region and shrinks it by eight bits.
proof fn lemma_reflect_refill(w: u64, b: u8, bits: Seq<bool>, pos: int, s: int)
    requires
        window_reflects(w, bits, pos, s),
        8 <= s <= 39,
        feeds(b, bits, pos + 64 - s),
    ensures
        window_reflects(
            (w | (((b as u64) << ((s - 8) as u64)) as u64)) as u64,
            bits,
            pos,
            s - 8,
        ),
{
    let wn = (w | (((b as u64) << ((s - 8) as u64)) as u64)) as u64;
    assert forall|j: int| 0 <= j < 64 implies (#[trigger] wbit(wn, j)) == (j < 64 - (s - 8)
        && bit_at(bits, pos + j)) by {
        lemma_wbit_or_refill(w, b, s, j);
        if 64 - s <= j < 72 - s {
            let t = j - 64 + s;
            assert(crate::bits::byte_bit(b, t) == bit_at(bits, pos + 64 - s + t));
            assert(!wbit(w, j));
        }
    }
}

proof fn lemma_wbit_zero(j: int)
    requires
        0 <= j < 64,
    ensures
        !wbit(0u64, j),
{
    let ju = (63 - j) as u64;
    assert((0u64 >> ju) & 1 == 0) by (bit_vector);
}

proof fn lemma_byte_bit_zero(t: int)
    requires
        0 <= t < 8,
    ensures
        !crate::bits::byte_bit(0u8, t),
{
    let tu = (7 - t) as u8;
    assert((0u8 >> tu) & 1 == 0) by (bit_vector);
}

/// Every table entry describes its symbol: canonical code, that symbol's
/// length, the symbol itself; entries carry strictly ascending symbols.
proof fn lemma_used_codes_structure(lens: Seq<u8>, n: int)
    requires
        lens.len() == 256,
        forall|t: int| 0 <= t < 256 ==> #[trigger] lens[t] <= 32,
        0 <= n <= 256,
    ensures
        forall|ci: int|
            0 <= ci < used_codes_upto(lens, n).len() ==> {
                let e = #[trigger] used_codes_upto(lens, n)[ci];
                &&& e.symbol is Some
                &&& (e.symbol.unwrap() as int) < n
                &&& lens[e.symbol.unwrap() as int] > 0
                &&& e.len == lens[e.symbol.unwrap() as int]
                &&& e.code == canon_code(lens, e.symbol.unwrap() as int)
            },
        forall|ci1: int, ci2: int|
            0 <= ci1 < ci2 < used_codes_upto(lens, n).len()
                ==> (#[trigger] used_codes_upto(lens, n)[ci1]).symbol.unwrap() < (
            #[trigger] used_codes_upto(lens, n)[ci2]).symbol.unwrap(),
    decreases n,
{
    if n > 0 {
        lemma_used_codes_structure(lens, n - 1);
        let prev = used_codes_upto(lens, n - 1);
        let cur = used_codes_upto(lens, n);
        if lens[n - 1] > 0 {
            assert(cur == prev.push(
                Code {
                    code: canon_code(lens, n - 1) as u64,
                    len: lens[n - 1],
                    symbol: Some((n - 1) as u8),
                },
            ));
            assert(forall|ci: int| 0 <= ci < prev.len() ==> cur[ci] == prev[ci]);
            // The canonical value is within `u64` range, so the cast keeps it.
            lemma_first_code_bound(lens, lens[n - 1] as nat);
            lemma_pow2_le((lens[n - 1] + 10) as nat, 43);
            lemma2_to64();
            lemma2_to64_rest();
            crate::tree::lemma_count_byte_le_len(lens.take(n - 1), lens[n - 1]);
        }
    }
}

/// The symbol with a positive length appears in the table.
proof fn lemma_used_codes_contains(lens: Seq<u8>, b: int, n: int)
    requires
        lens.len() == 256,
        0 <= b < n <= 256,
        lens[b] > 0,
    ensures
        exists|ci: int|
            0 <= ci < used_codes_upto(lens, n).len() && (#[trigger] used_codes_upto(lens, n)[
                ci
            ]).symbol == Some(b as u8),
    decreases n,
{
    let cur = used_codes_upto(lens, n);
    let prev = used_codes_upto(lens, n - 1);
    if b == n - 1 {
        assert(cur[cur.len() - 1].symbol == Some(b as u8));
    } else {
        lemma_used_codes_contains(lens, b, n - 1);
        let ci = choose|ci: int|
            0 <= ci < prev.len() && (#[trigger] prev[ci]).symbol == Some(b as u8);
        assert(cur[ci].symbol == Some(b as u8));
    }
}

/// Two equal-width in-range codes with the same bits are the same value.
proof fn lemma_value_bits_injective(a: u64, b: u64, l: u8)
    requires
        1 <= l <= 32,
        a < (1u64 << (l as u64)),
        b < (1u64 << (l as u64)),
        crate::bits::value_bits(a, l as nat) == crate::bits::value_bits(b, l as nat),
    ensures
        a == b,
{
    assert forall|j: u64| j < 64 implies #[trigger] ((a >> j) & 1) == ((b >> j) & 1) by {
        if j < l as u64 {
            let nn = l as nat;
            let t: int = l - 1 - j as int;
            assert(0 <= t < nn);
            assert(crate::bits::value_bits(a, nn)[t] == crate::bits::value_bits(b, nn)[t]);
            assert(crate::bits::value_bits(a, nn)[t] == ((a >> ((nn - 1 - t) as u64)) & 1 == 1));
            assert(crate::bits::value_bits(b, nn)[t] == ((b >> ((nn - 1 - t) as u64)) & 1 == 1));
            assert(((nn - 1 - t) as u64) == j);
            assert(((a >> j) & 1 == 1) == ((b >> j) & 1 == 1));
            assert((a >> j) & 1 == (b >> j) & 1) by (bit_vector)
                requires
                    ((a >> j) & 1 == 1) == ((b >> j) & 1 == 1),
            ;
        } else {
            assert((a >> j) & 1 == 0) by (bit_vector)
                requires
                    j >= l,
                    l <= 32,
                    a < (1u64 << (l as u64)),
            ;
            assert((b >> j) & 1 == 0) by (bit_vector)
                requires
                    j >= l,
                    l <= 32,
                    b < (1u64 << (l as u64)),
            ;
        }
    }
    lemma_low_bits_eq(a, b, 64);
}

/// The first bits of a longer code are the bits of its truncation.
proof fn lemma_value_bits_truncate(b: u64, l1: u8, l2: u8, tu: u64)
    requires
        1 <= l1 < l2 <= 32,
        tu < l1,
    ensures
        crate::bits::value_bits(b, l2 as nat)[tu as int] == crate::bits::value_bits(
            (b >> ((l2 - l1) as u64)) as u64,
            l1 as nat,
        )[tu as int],
{
    let t = tu as int;
    let d = (l2 - l1) as u64;
    let s2 = ((l2 as nat) - 1 - t) as u64;
    let s1 = ((l1 as nat) - 1 - t) as u64;
    assert(((b >> s2) & 1) == (((b >> d) >> s1) & 1)) by (bit_vector)
        requires
            l1 < l2,
            l2 <= 32,
            tu < l1,
            s2 == (l2 - 1 - tu) as u64,
            s1 == (l1 - 1 - tu) as u64,
            d == (l2 - l1) as u64,
    ;
    assert(crate::bits::value_bits(b, l2 as nat)[t] == ((b >> s2) & 1 == 1));
    assert(crate::bits::value_bits((b >> d) as u64, l1 as nat)[t] == (((b >> d) >> s1) & 1
        == 1));
}

/// A truncated in-range code is in range for the shorter width.
proof fn lemma_shr_in_range(b: u64, l1: u8, l2: u8)
    requires
        1 <= l1 < l2 <= 32,
        b < (1u64 << (l2 as u64)),
    ensures
        (b >> ((l2 - l1) as u64)) < (1u64 << (l1 as u64)),
{
    assert((b >> ((l2 - l1) as u64)) < (1u64 << (l1 as u64))) by (bit_vector)
        requires
            1 <= l1 < l2 <= 32,
            b < (1u64 << (l2 as u64)),
    ;
}

/// Shifting right by the width difference is division by its power of two.
proof fn lemma_shr_is_div_pow2(b: u64, d: u64)
    requires
        d <= 32,
    ensures
        (b >> d) == b as int / (pow2(d as nat) as int),
{
    vstd::bits::lemma_u64_shr_is_div(b, d);
}

/// The codes of the input's bytes from position `k` on.
pub open spec fn tail_bits(lens: Seq<u8>, input: Seq<u8>, k: int) -> Seq<bool>
    decreases input.len() - k,
{
    if k < 0 || k >= input.len() {
        Seq::empty()
    } else {
        code_bits(lens, input[k]) + tail_bits(lens, input, k + 1)
    }
}

/// The payload splits at any input position into the codes already written
/// and the codes still to come.
proof fn lemma_payload_decompose(lens: Seq<u8>, input: Seq<u8>, k: int)
    requires
        0 <= k <= input.len(),
    ensures
        payload_bits(lens, input) == payload_bits(lens, input.take(k)) + tail_bits(
            lens,
            input,
            k,
        ),
    decreases input.len() - k,
{
    if k == input.len() {
        assert(input.take(k) =~= input);
        assert(payload_bits(lens, input.take(k)) + tail_bits(lens, input, k) =~= payload_bits(
            lens,
            input,
        ));
    } else {
        lemma_payload_decompose(lens, input, k + 1);
        assert(input.take(k + 1).drop_last() =~= input.take(k));
        assert(input.take(k + 1).last() == input[k]);
        assert(payload_bits(lens, input.take(k + 1)) == payload_bits(lens, input.take(k))
            + code_bits(lens, input[k]));
        assert(payload_bits(lens, input.take(k)) + tail_bits(lens, input, k) =~= (payload_bits(
            lens,
            input.take(k),
        ) + code_bits(lens, input[k])) + tail_bits(lens, input, k + 1));
    }
}

/// If entry `i` matches and no earlier entry does, the scan finds `i`.
proof fn lemma_spec_first_match_of(codes: Seq<Code>, bits: Seq<bool>, pos: int, i: int, k: int)
    requires
        0 <= k <= i < codes.len(),
        spec_matches_at(bits, pos, codes[i]),
        forall|j: int| 0 <= j < i ==> !spec_matches_at(bits, pos, #[trigger] codes[j]),
    ensures
        first_match_from(codes, bits, pos, k) == Some(i),
    decreases codes.len() - k,
{
    if k < i {
        lemma_spec_first_match_of(codes, bits, pos, i, k + 1);
    }
}

/// The number of a single-bit left-shift as a power of two.
proof fn lemma_shl1_is_pow2(l: u8)
    requires
        l <= 32,
    ensures
        (1u64 << (l as u64)) == pow2(l as nat),
{
    vstd::bits::lemma_u64_pow2_no_overflow(l as nat);
    vstd::bits::lemma_u64_shl_is_mul(1u64, l as u64);
}

/// When the bits at `pos` spell the code of entry `ci`, no other entry of a
/// Kraft-consistent canonical table matches there: a second match would
/// make one canonical code a bit-prefix of another.
proof fn lemma_unique_match_at(
    lens: Seq<u8>,
    bits: Seq<bool>,
    pos: int,
    codes: Seq<Code>,
    ci: int,
)
    requires
        lens.len() == 256,
        forall|t: int| 0 <= t < 256 ==> #[trigger] lens[t] <= 32,
        forall|v: int|
            0 <= v < 256 && #[trigger] lens[v] > 0 ==> canon_code(lens, v) < pow2(
                lens[v] as nat,
            ),
        codes == used_codes(lens),
        0 <= ci < codes.len(),
        spec_matches_at(bits, pos, codes[ci]),
    ensures
        first_match_from(codes, bits, pos, 0) == Some(ci),
{
    lemma_used_codes_structure(lens, 256);
    assert forall|j: int|
        0 <= j < codes.len() && j != ci implies !spec_matches_at(
        bits,
        pos,
        #[trigger] codes[j],
    ) by {
        if spec_matches_at(bits, pos, codes[j]) {
            let e1 = codes[ci];
            let e2 = codes[j];
            let s1 = e1.symbol.unwrap() as int;
            let s2 = e2.symbol.unwrap() as int;
            if j < ci {
                assert(codes[j].symbol.unwrap() < codes[ci].symbol.unwrap());
            } else {
                assert(codes[ci].symbol.unwrap() < codes[j].symbol.unwrap());
            }
            assert(s1 != s2);
            let sa: int = if e1.len <= e2.len {
                s1
            } else {
                s2
            };
            let sb: int = if e1.len <= e2.len {
                s2
            } else {
                s1
            };
            let la = lens[sa];
            let lb = lens[sb];
            assert(la <= lb);
            assert(1 <= la && lb <= 32);
            let ca = (canon_code(lens, sa) as u64);
            let cb = (canon_code(lens, sb) as u64);
            lemma_shl1_is_pow2(la);
            lemma_shl1_is_pow2(lb);
            assert(ca < (1u64 << (la as u64)));
            assert(cb < (1u64 << (lb as u64)));
            // Both entries spell out the same stream bits.
            assert forall|t: int| 0 <= t < la implies crate::bits::value_bits(ca, la as nat)[t]
                == crate::bits::value_bits(cb, lb as nat)[t] by {
                assert(bit_at(bits, pos + t) == code_bit(codes[ci], t));
                assert(bit_at(bits, pos + t) == code_bit(codes[j], t));
            }
            if la == lb {
                assert(crate::bits::value_bits(ca, la as nat) =~= crate::bits::value_bits(
                    cb,
                    lb as nat,
                ));
                lemma_value_bits_injective(ca, cb, la);
                if sa < sb {
                    lemma_same_length_codes_distinct(lens, sa, sb);
                } else {
                    lemma_same_length_codes_distinct(lens, sb, sa);
                }
            } else {
                let d = (lb - la) as u64;
                let tr = (cb >> d) as u64;
                assert forall|t: int| 0 <= t < la implies crate::bits::value_bits(
                    tr,
                    la as nat,
                )[t] == crate::bits::value_bits(ca, la as nat)[t] by {
                    lemma_value_bits_truncate(cb, la, lb, t as u64);
                }
                assert(crate::bits::value_bits(tr, la as nat) =~= crate::bits::value_bits(
                    ca,
                    la as nat,
                ));
                lemma_shr_in_range(cb, la, lb);
                lemma_value_bits_injective(tr, ca, la);
                lemma_shr_is_div_pow2(cb, d);
                lemma_canonical_prefix_free(lens, sa, sb);
                assert(canon_code(lens, sb) / (pow2((lb - la) as nat) as int) == ca);
                assert(false);
            }
        }
    }
    lemma_spec_first_match_of(codes, bits, pos, ci, 0);
}

/// Decoding the canonical payload from the bit offset of input position `k`
/// reproduces the remaining input bytes exactly.
proof fn lemma_decode_payload(lens: Seq<u8>, input: Seq<u8>, pad: Seq<bool>, k: int)
    requires
        lens.len() == 256,
        forall|t: int| 0 <= t < 256 ==> #[trigger] lens[t] <= 32,
        forall|b: u8| occurs(input, b) ==> lens[b as int] > 0,
        forall|v: int|
            0 <= v < 256 && #[trigger] lens[v] > 0 ==> canon_code(lens, v) < pow2(
                lens[v] as nat,
            ),
        0 <= k <= input.len(),
    ensures
        spec_decode(
            used_codes(lens),
            payload_bits(lens, input) + pad,
            payload_bits(lens, input.take(k)).len() as int,
            (input.len() - k) as nat,
        ) == Ok::<Seq<u8>, CodecError>(input.skip(k)),
    decreases input.len() - k,
{
    let codes = used_codes(lens);
    let full = payload_bits(lens, input);
    let bits = full + pad;
    let pos = payload_bits(lens, input.take(k)).len() as int;
    let rem = (input.len() - k) as nat;
    if k == input.len() {
        assert(input.skip(k) =~= Seq::<u8>::empty());
    } else {
        let b = input[k];
        let bi = b as int;
        lemma_element_occurs(input, k);
        assert(occurs(input, b));
        assert(lens[bi] > 0);
        let lb = lens[bi];
        lemma_payload_decompose(lens, input, k);
        lemma_used_codes_structure(lens, 256);
        lemma_used_codes_contains(lens, bi, 256);
        let ci = choose|ci: int|
            0 <= ci < codes.len() && (#[trigger] codes[ci]).symbol == Some(b);
        let e = codes[ci];
        assert(e.len == lb && e.code == canon_code(lens, bi));
        // The next `lb` bits of the stream are exactly this entry's code.
        let prefix = payload_bits(lens, input.take(k));
        assert(full == prefix + tail_bits(lens, input, k));
        assert(tail_bits(lens, input, k) == code_bits(lens, b) + tail_bits(lens, input, k + 1));
        assert(code_bits(lens, b).len() == lb as int);
        assert forall|t: int| 0 <= t < lb implies #[trigger] bit_at(bits, pos + t) == code_bit(
            e,
            t,
        ) by {
            assert(full[pos + t] == tail_bits(lens, input, k)[t]);
            assert(tail_bits(lens, input, k)[t] == code_bits(lens, b)[t]);
            assert(bits[pos + t] == full[pos + t]);
            assert(code_bits(lens, b)[t] == ((e.code >> ((lb - 1 - t) as u64)) & 1 == 1));
        }
        assert(spec_matches_at(bits, pos, e));
        lemma_unique_match_at(lens, bits, pos, codes, ci);
        // One more code still fits inside the payload.
        assert(input.take(k + 1).drop_last() =~= input.take(k));
        assert(input.take(k + 1).last() == b);
        assert(payload_bits(lens, input.take(k + 1)) == prefix + code_bits(lens, b));
        lemma_payload_decompose(lens, input, k + 1);
        assert(pos + lb <= full.len());
        assert(pos + lb <= bits.len());
        lemma_decode_payload(lens, input, pad, k + 1);
        assert(payload_bits(lens, input.take(k + 1)).len() == pos + lb);
        assert(spec_decode(codes, bits, pos + lb, (rem - 1) as nat) == Ok::<
            Seq<u8>,
            CodecError,
        >(input.skip(k + 1)));
        assert(Seq::empty().push(b) + input.skip(k + 1) =~= input.skip(k));
        assert(spec_decode(codes, bits, pos, rem) == Ok::<Seq<u8>, CodecError>(input.skip(k)));
    }
}

/// Round trip: a well-formed compressed stream whose code table is
/// Kraft-consistent decodes to exactly the input it was built from — the
/// count in its header is the input length, and the window decoder's result
/// is the input byte for byte.
pub proof fn lemma_stream_round_trip(out: Seq<u8>, input: Seq<u8>)
    requires
        encoded_wf(out, input),
        input.len() <= u64::MAX,
        forall|v: int|
            0 <= v < 256 && #[trigger] out.subrange(8, 264)[v] > 0 ==> canon_code(
                out.subrange(8, 264),
                v,
            ) < pow2(out.subrange(8, 264)[v] as nat),
    ensures
        be64_val(out.subrange(0, 8)) == input.len(),
        spec_decode(
            used_codes(out.subrange(8, 264)),
            crate::bits::stream_bits(out.skip(264)),
            0,
            input.len() as nat,
        ) == Ok::<Seq<u8>, CodecError>(input),
{
    lemma_header_count_round_trip(input.len() as u64);
    let lens = out.subrange(8, 264);
    let body = payload_bits(lens, input);
    let pad = Seq::new(crate::bits::pad_len(body.len()), |i: int| false);
    assert(crate::bits::stream_bits(out.skip(264)) == body + pad);
    assert(input.take(0) =~= Seq::<u8>::empty());
    assert(payload_bits(lens, input.take(0)).len() == 0);
    lemma_decode_payload(lens, input, pad, 0);
    assert(input.skip(0) =~= input);
}

/// A value with a positive count has a last occurrence: the entry at that
/// position sees every other occurrence before it.
proof fn lemma_last_occurrence(s: Seq<u8>, v: u8)
    requires
        count_byte(s, v) > 0,
    ensures
        exists|i: int|
            0 <= i < s.len() && #[trigger] s[i] == v && count_byte(s.take(i), v) == count_byte(
                s,
                v,
            ) - 1,
    decreases s.len(),
{
    if s.last() == v {
        let i = s.len() - 1;
        assert(s.take(i) =~= s.drop_last());
        assert(s[i] == v && count_byte(s.take(i), v) == count_byte(s, v) - 1);
    } else {
        lemma_last_occurrence(s.drop_last(), v);
        let i = choose|i: int|
            0 <= i < s.drop_last().len() && #[trigger] s.drop_last()[i] == v && count_byte(
                s.drop_last().take(i),
                v,
            ) == count_byte(s.drop_last(), v) - 1;
        assert(s.drop_last().take(i) =~= s.take(i));
        assert(s[i] == v && count_byte(s.take(i), v) == count_byte(s, v) - 1);
    }
}

/// Each length's first unused code stays within the length's range when
/// every assigned code does.
proof fn lemma_fc_bounded(lens: Seq<u8>, k: nat)
    requires
        lens.len() == 256,
        forall|t: int| 0 <= t < 256 ==> #[trigger] lens[t] <= 32,
        forall|v: int|
            0 <= v < 256 && #[trigger] lens[v] > 0 ==> canon_code(lens, v) < pow2(
                lens[v] as nat,
            ),
        1 <= k <= 32,
    ensures
        first_code(lens, k) + count_byte(lens, k as u8) <= pow2(k),
    decreases k,
{
    if count_byte(lens, k as u8) > 0 {
        lemma_last_occurrence(lens, k as u8);
        let b = choose|i: int|
            0 <= i < lens.len() && #[trigger] lens[i] == k as u8 && count_byte(
                lens.take(i),
                k as u8,
            ) == count_byte(lens, k as u8) - 1;
        assert(canon_code(lens, b) == first_code(lens, k) + count_byte(lens, k as u8) - 1);
        assert(canon_code(lens, b) < pow2(k));
    } else {
        if k == 1 {
            lemma2_to64();
        } else {
            lemma_fc_bounded(lens, (k - 1) as nat);
            lemma_pow2_unfold(k);
            assert(first_code(lens, k) == (first_code(lens, (k - 1) as nat) + count_byte(
                lens,
                (k - 1) as u8,
            )) * 2);
        }
    }
}

/// The converse of `lemma_codes_fit_lengths`: a canonical table whose codes
/// all fit their bit-lengths satisfies the Kraft inequality.
pub proof fn lemma_fit_implies_kraft(lens: Seq<u8>)
    requires
        lens.len() == 256,
        forall|t: int| 0 <= t < 256 ==> #[trigger] lens[t] <= 32,
        forall|v: int|
            0 <= v < 256 && #[trigger] lens[v] > 0 ==> canon_code(lens, v) < pow2(
                lens[v] as nat,
            ),
    ensures
        kraft_scaled(lens, 32) <= pow2(32),
{
    lemma_first_code_kraft(lens, 32);
    lemma_fc_bounded(lens, 32);
    assert(pow2(0) == 1) by {
        lemma2_to64();
    }
    let x = first_code(lens, 32) + count_byte(lens, 32u8);
    assert(kraft_scaled(lens, 32) == x * pow2(0));
    assert(x * pow2(0) == x) by (nonlinear_arith)
        requires
            pow2(0) == 1,
    ;
}

proof fn lemma_kraft_scaled_push(s: Seq<u8>, x: u8, k: nat)
    requires
        k <= 32,
    ensures
        kraft_scaled(s.push(x), k) == kraft_scaled(s, k) + (if 1 <= x <= k {
            pow2((32 - x) as nat) as int
        } else {
            0
        }),
    decreases k,
{
    if k > 0 {
        lemma_kraft_scaled_push(s, x, (k - 1) as nat);
        assert(s.push(x).drop_last() =~= s);
        let p = pow2((32 - k) as nat) as int;
        let c0 = count_byte(s, k as u8) as int;
        let dd: int = if x == k {
            1
        } else {
            0
        };
        assert(count_byte(s.push(x), k as u8) == c0 + dd);
        assert((c0 + dd) * p == c0 * p + dd * p) by (nonlinear_arith);
        if x == k {
            assert(dd == 1);
            assert(dd * p == p);
        } else {
            assert(dd == 0);
            assert(dd * p == 0);
        }
    }
}

/// The per-symbol Kraft mass is the per-length mass, rescaled from the
/// 255-bit to the 32-bit denominator.
proof fn lemma_kraft_convert(lens: Seq<u8>, n: int)
    requires
        lens.len() == 256,
        forall|t: int| 0 <= t < 256 ==> #[trigger] lens[t] <= 32,
        0 <= n <= 256,
    ensures
        crate::tree::sym_kraft(lens, n) == pow2(223) * kraft_scaled(lens.take(n), 32),
    decreases n,
{
    if n == 0 {
        assert(lens.take(0).len() == 0);
        assert(kraft_scaled(lens.take(0), 32) == 0) by {
            lemma_kraft_scaled_zero(lens.take(0), 32);
        }
    } else {
        lemma_kraft_convert(lens, n - 1);
        let x = lens[n - 1];
        assert(lens.take(n) =~= lens.take(n - 1).push(x));
        lemma_kraft_scaled_push(lens.take(n - 1), x, 32);
        if x > 0 {
            assert(1 <= x <= 32);
            assert(pow2(223) * (pow2((32 - x) as nat) as int) == pow2((255 - x) as nat) as int)
                by {
                vstd::arithmetic::power2::lemma_pow2_adds(223, (32 - x) as nat);
            }
        }
        assert(pow2(223) * (kraft_scaled(lens.take(n - 1), 32) + (if 1 <= x <= 32 {
            pow2((32 - x) as nat) as int
        } else {
            0
        })) == pow2(223) * kraft_scaled(lens.take(n - 1), 32) + pow2(223) * (if 1 <= x <= 32 {
            pow2((32 - x) as nat) as int
        } else {
            0
        })) by (nonlinear_arith);
    }
}

proof fn lemma_kraft_scaled_zero(s: Seq<u8>, k: nat)
    requires
        s.len() == 0,
    ensures
        kraft_scaled(s, k) == 0,
    decreases k,
{
    if k > 0 {
        lemma_kraft_scaled_zero(s, (k - 1) as nat);
        crate::tree::lemma_count_byte_le_len(s, k as u8);
        assert(count_byte(s, k as u8) == 0);
        assert(count_byte(s, k as u8) * pow2((32 - k) as nat) == 0) by (nonlinear_arith)
            requires
                count_byte(s, k as u8) == 0,
        ;
    }
}

/// Kraft equality of a frequency tree's length vector keeps every canonical
/// code inside its own bit-length, so the encoder never has to reject a
/// table it built itself.
proof fn lemma_tree_lengths_fit(t_nodes: Seq<crate::tree::Node>, lens: Seq<u8>)
    requires
        lens.len() == 256,
        forall|v: int| 0 <= v < 256 ==> #[trigger] lens[v] <= 32,
        forall|v: int|
            0 <= v < 256 ==> ((#[trigger] lens[v] > 0) <==> crate::tree::has_leaf(
                t_nodes,
                v as u8,
            )),
        crate::tree::arena_wf(t_nodes),
        crate::tree::covered(t_nodes),
        crate::tree::parents_unique(t_nodes),
        crate::tree::children_depths(t_nodes),
        forall|j: int| 0 <= j < t_nodes.len() ==> (#[trigger] t_nodes[j]).depth is Some,
        forall|j: int|
            0 <= j < t_nodes.len() ==> (#[trigger] t_nodes[j]).depth.unwrap()
                <= crate::tree::internal_count(t_nodes, j + 1, t_nodes.len() as int),
        crate::tree::internal_total(t_nodes) <= 255,
        t_nodes.len() > 0 ==> t_nodes[t_nodes.len() - 1].depth == Some(0u8),
        t_nodes.len() >= 2 ==> crate::tree::sym_kraft(lens, 256) == crate::tree::leaf_weight_sum(
            t_nodes,
            t_nodes.len() as int,
        ),
        t_nodes.len() == 1 ==> crate::tree::sym_kraft(lens, 256) == pow2(254),
    ensures
        forall|x: int|
            0 <= x < 256 && #[trigger] lens[x] > 0 ==> canon_code(lens, x) < pow2(
                lens[x] as nat,
            ),
{
    let n_nodes = t_nodes.len() as int;
    if n_nodes >= 1 {
        if n_nodes >= 2 {
            crate::tree::lemma_tree_kraft(t_nodes);
            assert(crate::tree::sym_kraft(lens, 256) == pow2(255));
        } else {
            assert(crate::tree::sym_kraft(lens, 256) == pow2(254));
        }
        lemma_kraft_convert(lens, 256);
        assert(lens.take(256) =~= lens);
        assert(crate::tree::sym_kraft(lens, 256) == pow2(223) * kraft_scaled(lens, 32));
        lemma_pow2_pos(223);
        vstd::arithmetic::power2::lemma_pow2_adds(223, 32);
        vstd::arithmetic::power2::lemma_pow2_adds(223, 31);
        if n_nodes >= 2 {
            assert(pow2(223) * kraft_scaled(lens, 32) == pow2(223) * (pow2(32) as int));
            assert(kraft_scaled(lens, 32) == pow2(32)) by (nonlinear_arith)
                requires
                    pow2(223) * kraft_scaled(lens, 32) == pow2(223) * (pow2(32) as int),
                    pow2(223) >= 1,
            ;
        } else {
            assert(pow2(223) * kraft_scaled(lens, 32) == pow2(223) * (pow2(31) as int));
            assert(kraft_scaled(lens, 32) == pow2(31)) by (nonlinear_arith)
                requires
                    pow2(223) * kraft_scaled(lens, 32) == pow2(223) * (pow2(31) as int),
                    pow2(223) >= 1,
            ;
            lemma_pow2_le(31, 32);
        }
        assert(kraft_scaled(lens, 32) <= pow2(32));
        assert forall|x: int| 0 <= x < 256 && #[trigger] lens[x] > 0 implies canon_code(
            lens,
            x,
        ) < pow2(lens[x] as nat) by {
            lemma_codes_fit_lengths(lens, x);
        }
    } else {
        assert forall|x: int| 0 <= x < 256 && #[trigger] lens[x] > 0 implies canon_code(
            lens,
            x,
        ) < pow2(lens[x] as nat) by {
            assert(crate::tree::has_leaf(t_nodes, x as u8));
            let w = choose|w: int|
                0 <= w < t_nodes.len() && crate::tree::node_is_leaf(#[trigger] t_nodes[w])
                    && t_nodes[w].symbol == Some(x as u8);
            assert(false);
        }
    }
}

/// Two well-formed streams that carry the same length table for the same
/// input are identical byte for byte.
proof fn lemma_streams_identical(o1: Seq<u8>, o2: Seq<u8>, input: Seq<u8>)
    requires
        encoded_wf(o1, input),
        encoded_wf(o2, input),
        o1.subrange(8, 264) == o2.subrange(8, 264),
    ensures
        o1 == o2,
{
    let lens = o1.subrange(8, 264);
    let body = payload_bits(lens, input);
    let pad = Seq::new(crate::bits::pad_len(body.len()), |i: int| false);
    assert(crate::bits::stream_bits(o1.skip(264)) == body + pad);
    assert(crate::bits::stream_bits(o2.skip(264)) == body + pad);
    crate::bits::lemma_stream_bits_len(o1.skip(264));
    crate::bits::lemma_stream_bits_len(o2.skip(264));
    assert(o1.skip(264).len() == o2.skip(264).len());
    crate::bits::lemma_stream_bits_injective(o1.skip(264), o2.skip(264));
    assert(o1.len() == o2.len());
    assert forall|i: int| 0 <= i < o1.len() implies o1[i] == o2[i] by {
        if i < 8 {
            assert(o1.subrange(0, 8)[i] == o1[i]);
            assert(o2.subrange(0, 8)[i] == o2[i]);
        } else if i < 264 {
            assert(o1.subrange(8, 264)[i - 8] == o1[i]);
            assert(o2.subrange(8, 264)[i - 8] == o2[i]);
        } else {
            assert(o1.skip(264)[i - 264] == o1[i]);
            assert(o2.skip(264)[i - 264] == o2[i]);
        }
    }
    assert(o1 =~= o2);
}

/// Canonical determinism: any two successful encodings of one input are
/// byte-identical, because the construction admits a single length table
/// and the packed stream is a function of table and input.
pub proof fn lemma_encode_deterministic(o1: Seq<u8>, o2: Seq<u8>, input: Seq<u8>)
    requires
        encoded_wf(o1, input),
        encoded_wf(o2, input),
        crate::tree::lens_of_tree(o1.subrange(8, 264), input),
        crate::tree::lens_of_tree(o2.subrange(8, 264), input),
    ensures
        o1 == o2,
{
    crate::tree::lemma_lengths_determined(o1.subrange(8, 264), o2.subrange(8, 264), input);
    lemma_streams_identical(o1, o2, input);
}

/// The tree the encoder built witnesses that its length table is the
/// construction's table for this input.
proof fn lemma_lens_witness(nodes: Seq<crate::tree::Node>, lens: Seq<u8>, input: Seq<u8>)
    requires
        nodes.len() == crate::tree::spec_arena(input).len(),
        forall|j: int|
            0 <= j < nodes.len() ==> crate::tree::node_same_shape(
                #[trigger] nodes[j],
                crate::tree::spec_arena(input)[j],
            ),
        crate::tree::arena_wf(nodes),
        crate::tree::covered(nodes),
        crate::tree::children_depths(nodes),
        forall|j: int| 0 <= j < nodes.len() ==> (#[trigger] nodes[j]).depth is Some,
        nodes.len() > 0 ==> nodes[nodes.len() - 1].depth == Some(0u8),
        lens.len() == 256,
        forall|b: int|
            0 <= b < 256 ==> ((#[trigger] lens[b] > 0) <==> crate::tree::has_leaf(
                nodes,
                b as u8,
            )),
        forall|i: int|
            0 <= i < nodes.len() && crate::tree::node_is_leaf(#[trigger] nodes[i]) ==> lens[
                nodes[i].symbol.unwrap() as int
            ] == (if nodes.len() == 1 {
                1u8
            } else {
                nodes[i].depth.unwrap()
            }),
    ensures
        crate::tree::lens_of_tree(lens, input),
{
    assert(crate::tree::lens_of_arena(nodes, lens, input));
}

} // verus!
