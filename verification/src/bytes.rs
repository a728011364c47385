//! Little-endian encoding of 64-bit words.
use vstd::prelude::*;

verus! {

/// The eight bytes of `x`, least significant first.
pub open spec fn u64_le_bytes(x: u64) -> Seq<u8> {
    seq![
        (x & 0xff) as u8,
        ((x >> 8u64) & 0xff) as u8,
        ((x >> 16u64) & 0xff) as u8,
        ((x >> 24u64) & 0xff) as u8,
        ((x >> 32u64) & 0xff) as u8,
        ((x >> 40u64) & 0xff) as u8,
        ((x >> 48u64) & 0xff) as u8,
        ((x >> 56u64) & 0xff) as u8,
    ]
}

/// The word whose little-endian bytes are `b0, .., b7`.
pub open spec fn u64_from_le(
    b0: u8,
    b1: u8,
    b2: u8,
    b3: u8,
    b4: u8,
    b5: u8,
    b6: u8,
    b7: u8,
) -> u64 {
    (b0 as u64) | ((b1 as u64) << 8u64) | ((b2 as u64) << 16u64) | ((b3 as u64) << 24u64) | ((
    b4 as u64) << 32u64) | ((b5 as u64) << 40u64) | ((b6 as u64) << 48u64) | ((b7 as u64)
        << 56u64)
}

/// The little-endian word stored at positions `p .. p + 8` of `b`.
pub open spec fn le_u64_at(b: Seq<u8>, p: int) -> u64 {
    u64_from_le(b[p], b[p + 1], b[p + 2], b[p + 3], b[p + 4], b[p + 5], b[p + 6], b[p + 7])
}

/// The little-endian bytes of each word of `ws`, one after the other.
pub open spec fn words_le_bytes(ws: Seq<u64>) -> Seq<u8>
    decreases ws.len(),
{
    if ws.len() == 0 {
        Seq::empty()
    } else {
        words_le_bytes(ws.drop_last()) + u64_le_bytes(ws.last())
    }
}

/// Reading back the bytes of a word gives the word.
pub proof fn lemma_u64_le_roundtrip(x: u64)
    ensures
        u64_le_bytes(x).len() == 8,
        le_u64_at(u64_le_bytes(x), 0) == x,
{
    let a0 = x & 0xff;
    let a1 = (x >> 8u64) & 0xff;
    let a2 = (x >> 16u64) & 0xff;
    let a3 = (x >> 24u64) & 0xff;
    let a4 = (x >> 32u64) & 0xff;
    let a5 = (x >> 40u64) & 0xff;
    let a6 = (x >> 48u64) & 0xff;
    let a7 = (x >> 56u64) & 0xff;
    assert(a0 < 256 && a1 < 256 && a2 < 256 && a3 < 256 && a4 < 256 && a5 < 256 && a6 < 256 && a7
        < 256) by (bit_vector)
        requires
            a0 == x & 0xff,
            a1 == (x >> 8u64) & 0xff,
            a2 == (x >> 16u64) & 0xff,
            a3 == (x >> 24u64) & 0xff,
            a4 == (x >> 32u64) & 0xff,
            a5 == (x >> 40u64) & 0xff,
            a6 == (x >> 48u64) & 0xff,
            a7 == (x >> 56u64) & 0xff,
    ;
    assert(x == (a0 | (a1 << 8u64) | (a2 << 16u64) | (a3 << 24u64) | (a4 << 32u64) | (a5 << 40u64)
        | (a6 << 48u64) | (a7 << 56u64))) by (bit_vector)
        requires
            a0 == x & 0xff,
            a1 == (x >> 8u64) & 0xff,
            a2 == (x >> 16u64) & 0xff,
            a3 == (x >> 24u64) & 0xff,
            a4 == (x >> 32u64) & 0xff,
            a5 == (x >> 40u64) & 0xff,
            a6 == (x >> 48u64) & 0xff,
            a7 == (x >> 56u64) & 0xff,
    ;
    let s = u64_le_bytes(x);
    assert(s[0] as u64 == a0 && s[1] as u64 == a1 && s[2] as u64 == a2 && s[3] as u64 == a3);
    assert(s[4] as u64 == a4 && s[5] as u64 == a5 && s[6] as u64 == a6 && s[7] as u64 == a7);
}

/// Writing out a word read from eight bytes gives back those bytes.
pub proof fn lemma_le_u64_bytes_roundtrip(b: Seq<u8>, p: int)
    requires
        0 <= p,
        p + 8 <= b.len(),
    ensures
        u64_le_bytes(le_u64_at(b, p)) == b.subrange(p, p + 8),
{
    let c0 = b[p] as u64;
    let c1 = b[p + 1] as u64;
    let c2 = b[p + 2] as u64;
    let c3 = b[p + 3] as u64;
    let c4 = b[p + 4] as u64;
    let c5 = b[p + 5] as u64;
    let c6 = b[p + 6] as u64;
    let c7 = b[p + 7] as u64;
    let x = le_u64_at(b, p);
    assert(x == c0 | (c1 << 8u64) | (c2 << 16u64) | (c3 << 24u64) | (c4 << 32u64) | (c5 << 40u64)
        | (c6 << 48u64) | (c7 << 56u64));
    assert(c0 == x & 0xff && c1 == (x >> 8u64) & 0xff && c2 == (x >> 16u64) & 0xff && c3 == (x
        >> 24u64) & 0xff && c4 == (x >> 32u64) & 0xff && c5 == (x >> 40u64) & 0xff && c6 == (x
        >> 48u64) & 0xff && c7 == (x >> 56u64) & 0xff) by (bit_vector)
        requires
            c0 < 256 && c1 < 256 && c2 < 256 && c3 < 256 && c4 < 256 && c5 < 256 && c6 < 256 && c7
                < 256,
            x == c0 | (c1 << 8u64) | (c2 << 16u64) | (c3 << 24u64) | (c4 << 32u64) | (c5
                << 40u64) | (c6 << 48u64) | (c7 << 56u64),
    ;
    assert(u64_le_bytes(x) =~= b.subrange(p, p + 8));
}

/// The bytes of word `k` of `ws` stand at positions `8k .. 8k + 8` of the
/// encoding of `ws`, which is eight bytes per word long.
pub proof fn lemma_words_le_bytes_index(ws: Seq<u64>, k: int)
    requires
        0 <= k < ws.len(),
    ensures
        words_le_bytes(ws).len() == 8 * ws.len(),
        words_le_bytes(ws).subrange(8 * k, 8 * k + 8) == u64_le_bytes(ws[k]),
    decreases ws.len(),
{
    lemma_words_le_bytes_len(ws);
    let front = words_le_bytes(ws.drop_last());
    lemma_words_le_bytes_len(ws.drop_last());
    if k == ws.len() - 1 {
        assert(words_le_bytes(ws).subrange(8 * k, 8 * k + 8) =~= u64_le_bytes(ws.last()));
    } else {
        lemma_words_le_bytes_index(ws.drop_last(), k);
        assert(words_le_bytes(ws).subrange(8 * k, 8 * k + 8) =~= front.subrange(8 * k, 8 * k + 8));
    }
}

/// The encoding of `ws` is eight bytes per word long.
pub proof fn lemma_words_le_bytes_len(ws: Seq<u64>)
    ensures
        words_le_bytes(ws).len() == 8 * ws.len(),
    decreases ws.len(),
{
    if ws.len() > 0 {
        lemma_words_le_bytes_len(ws.drop_last());
    }
}

/// Appends the little-endian bytes of `x` to `out`.
pub fn push_u64_le(out: &mut Vec<u8>, x: u64)
    ensures
        final(out)@ == old(out)@ + u64_le_bytes(x),
{
    out.push((x & 0xff) as u8);
    out.push(((x >> 8u64) & 0xff) as u8);
    out.push(((x >> 16u64) & 0xff) as u8);
    out.push(((x >> 24u64) & 0xff) as u8);
    out.push(((x >> 32u64) & 0xff) as u8);
    out.push(((x >> 40u64) & 0xff) as u8);
    out.push(((x >> 48u64) & 0xff) as u8);
    out.push(((x >> 56u64) & 0xff) as u8);
    assert(final(out)@ =~= old(out)@ + u64_le_bytes(x));
}

/// Appends the little-endian bytes of each word of `ws` to `out`.
pub fn push_words_le(out: &mut Vec<u8>, ws: &[u64])
    ensures
        final(out)@ == old(out)@ + words_le_bytes(ws@),
{
    let ghost start = out@;
    let mut i: usize = 0;
    assert(ws@.take(0) =~= Seq::<u64>::empty());
    assert(out@ =~= start + words_le_bytes(ws@.take(0)));
    while i < ws.len()
        invariant
            i <= ws.len(),
            out@ == start + words_le_bytes(ws@.take(i as int)),
        decreases ws.len() - i,
    {
        push_u64_le(out, ws[i]);
        assert(ws@.take(i + 1).drop_last() =~= ws@.take(i as int));
        i = i + 1;
        assert(out@ =~= start + words_le_bytes(ws@.take(i as int)));
    }
    assert(ws@.take(ws.len() as int) =~= ws@);
}

/// The little-endian word at positions `p .. p + 8` of `b`.
pub fn read_u64_le(b: &[u8], p: usize) -> (r: u64)
    requires
        p + 8 <= b.len(),
    ensures
        r == le_u64_at(b@, p as int),
{
    (b[p] as u64) | ((b[p + 1] as u64) << 8u64) | ((b[p + 2] as u64) << 16u64) | ((b[p + 3] as u64)
        << 24u64) | ((b[p + 4] as u64) << 32u64) | ((b[p + 5] as u64) << 40u64) | ((b[p + 6] as u64)
        << 48u64) | ((b[p + 7] as u64) << 56u64)
}

/// Byte `i` of the little-endian encoding of `x` is digit `i` of `x` in
/// base 256, least significant first.
pub proof fn law_u64_le_bytes_digits(x: u64)
    ensures
        u64_le_bytes(x).len() == 8,
        u64_le_bytes(x)[0] as int == x as int % 0x100,
        u64_le_bytes(x)[1] as int == (x as int / 0x100) % 0x100,
        u64_le_bytes(x)[2] as int == (x as int / 0x1_0000) % 0x100,
        u64_le_bytes(x)[3] as int == (x as int / 0x100_0000) % 0x100,
        u64_le_bytes(x)[4] as int == (x as int / 0x1_0000_0000) % 0x100,
        u64_le_bytes(x)[5] as int == (x as int / 0x100_0000_0000) % 0x100,
        u64_le_bytes(x)[6] as int == (x as int / 0x1_0000_0000_0000) % 0x100,
        u64_le_bytes(x)[7] as int == (x as int / 0x100_0000_0000_0000) % 0x100,
{
    assert(x & 0xff == x % 0x100 && (x >> 8u64) & 0xff == (x / 0x100) % 0x100 && (x >> 16u64)
        & 0xff == (x / 0x1_0000) % 0x100 && (x >> 24u64) & 0xff == (x / 0x100_0000) % 0x100 && (x
        >> 32u64) & 0xff == (x / 0x1_0000_0000) % 0x100 && (x >> 40u64) & 0xff == (x
        / 0x100_0000_0000) % 0x100 && (x >> 48u64) & 0xff == (x / 0x1_0000_0000_0000) % 0x100 && (x
        >> 56u64) & 0xff == (x / 0x100_0000_0000_0000) % 0x100) by (bit_vector);
    lemma_u64_le_roundtrip(x);
}

/// The word at position `p` is the base-256 number whose digits, least
/// significant first, are the bytes at `p .. p + 8`.
pub proof fn law_le_u64_at_value(b: Seq<u8>, p: int)
    requires
        0 <= p,
        p + 8 <= b.len(),
    ensures
        le_u64_at(b, p) as int == b[p] as int + 0x100 * b[p + 1] + 0x1_0000 * b[p + 2] + 0x100_0000
            * b[p + 3] + 0x1_0000_0000 * b[p + 4] + 0x100_0000_0000 * b[p + 5] + 0x1_0000_0000_0000
            * b[p + 6] + 0x100_0000_0000_0000 * b[p + 7],
{
    let c0 = b[p] as u64;
    let c1 = b[p + 1] as u64;
    let c2 = b[p + 2] as u64;
    let c3 = b[p + 3] as u64;
    let c4 = b[p + 4] as u64;
    let c5 = b[p + 5] as u64;
    let c6 = b[p + 6] as u64;
    let c7 = b[p + 7] as u64;
    assert((c0 | (c1 << 8u64) | (c2 << 16u64) | (c3 << 24u64) | (c4 << 32u64) | (c5 << 40u64) | (c6
        << 48u64) | (c7 << 56u64)) as int == c0 + 0x100 * c1 + 0x1_0000 * c2 + 0x100_0000 * c3
        + 0x1_0000_0000 * c4 + 0x100_0000_0000 * c5 + 0x1_0000_0000_0000 * c6
        + 0x100_0000_0000_0000 * c7) by (bit_vector)
        requires
            c0 < 256 && c1 < 256 && c2 < 256 && c3 < 256 && c4 < 256 && c5 < 256 && c6 < 256 && c7
                < 256,
    ;
}

} // verus!
