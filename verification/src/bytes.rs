//! Little-endian codec between byte streams and `u64` words.
//!
//! Both the coverage database file and the payload area of the shared region
//! carry tightly packed little-endian `u64` values; this module gives the
//! packing an exact specification and verified encoders and decoders.

use vstd::prelude::*;

verus! {

/// The value of an 8-byte little-endian chunk.
pub open spec fn le_word(bs: Seq<u8>) -> u64
    recommends
        bs.len() == 8,
{
    (bs[0] + bs[1] * 0x100 + bs[2] * 0x1_0000 + bs[3] * 0x100_0000 + bs[4] * 0x1_0000_0000
        + bs[5] * 0x100_0000_0000 + bs[6] * 0x1_0000_0000_0000 + bs[7]
        * 0x100_0000_0000_0000) as u64
}

/// The 8 little-endian bytes of a word, least significant first.
pub open spec fn le_bytes(w: u64) -> Seq<u8> {
    seq![
        (w % 0x100) as u8,
        ((w / 0x100) % 0x100) as u8,
        ((w / 0x1_0000) % 0x100) as u8,
        ((w / 0x100_0000) % 0x100) as u8,
        ((w / 0x1_0000_0000) % 0x100) as u8,
        ((w / 0x100_0000_0000) % 0x100) as u8,
        ((w / 0x1_0000_0000_0000) % 0x100) as u8,
        ((w / 0x100_0000_0000_0000) % 0x100) as u8,
    ]
}

/// The words read off a byte stream, one per 8-byte chunk in order; a tail of
/// fewer than 8 bytes is dropped.
pub open spec fn words_of_bytes(bs: Seq<u8>) -> Seq<u64> {
    Seq::new(bs.len() / 8, |i: int| le_word(bs.subrange(8 * i, 8 * i + 8)))
}

/// The byte stream of a word sequence: each word as 8 little-endian bytes.
pub open spec fn bytes_of_words(ws: Seq<u64>) -> Seq<u8>
    decreases ws.len(),
{
    if ws.len() == 0 {
        Seq::empty()
    } else {
        le_bytes(ws[0]) + bytes_of_words(ws.drop_first())
    }
}

/// Decoding inverts encoding for a single word.
pub proof fn lemma_le_word_of_le_bytes(w: u64)
    ensures
        le_word(le_bytes(w)) == w,
{
    assert((w % 0x100) + ((w / 0x100) % 0x100) * 0x100 + ((w / 0x1_0000) % 0x100) * 0x1_0000 + ((w
        / 0x100_0000) % 0x100) * 0x100_0000 + ((w / 0x1_0000_0000) % 0x100) * 0x1_0000_0000 + ((w
        / 0x100_0000_0000) % 0x100) * 0x100_0000_0000 + ((w / 0x1_0000_0000_0000) % 0x100)
        * 0x1_0000_0000_0000 + ((w / 0x100_0000_0000_0000) % 0x100) * 0x100_0000_0000_0000
        == w) by (bit_vector);
}

/// The encoding of `n` words takes exactly `8 * n` bytes.
pub proof fn lemma_bytes_of_words_len(ws: Seq<u64>)
    ensures
        bytes_of_words(ws).len() == 8 * ws.len(),
    decreases ws.len(),
{
    if ws.len() > 0 {
        lemma_bytes_of_words_len(ws.drop_first());
    }
}

/// Each 8-byte chunk of an encoded word sequence is the encoding of the
/// corresponding word.
pub proof fn lemma_bytes_of_words_chunk(ws: Seq<u64>, i: int)
    requires
        0 <= i < ws.len(),
    ensures
        bytes_of_words(ws).subrange(8 * i, 8 * i + 8) == le_bytes(ws[i]),
    decreases i,
{
    lemma_bytes_of_words_len(ws);
    lemma_bytes_of_words_len(ws.drop_first());
    if i == 0 {
        assert(bytes_of_words(ws).subrange(0, 8) =~= le_bytes(ws[0]));
    } else {
        lemma_bytes_of_words_chunk(ws.drop_first(), i - 1);
        assert(bytes_of_words(ws).subrange(8 * i, 8 * i + 8) =~= bytes_of_words(
            ws.drop_first(),
        ).subrange(8 * (i - 1), 8 * (i - 1) + 8));
    }
}

/// Word-level round trip: decoding an encoded word sequence gives it back.
pub proof fn lemma_words_of_bytes_of_words(ws: Seq<u64>)
    ensures
        words_of_bytes(bytes_of_words(ws)) == ws,
{
    lemma_bytes_of_words_len(ws);
    assert forall|i: int| 0 <= i < ws.len() implies words_of_bytes(bytes_of_words(ws))[i]
        == ws[i] by {
        lemma_bytes_of_words_chunk(ws, i);
        lemma_le_word_of_le_bytes(ws[i]);
    }
    assert(words_of_bytes(bytes_of_words(ws)) =~= ws);
}

/// Reads the word at byte offset `pos` of a packed little-endian stream.
pub fn read_le_word(bs: &Vec<u8>, pos: usize) -> (w: u64)
    requires
        pos + 8 <= bs.len(),
    ensures
        w == le_word(bs@.subrange(pos as int, pos as int + 8)),
{
    let w: u64 = bs[pos] as u64 + bs[pos + 1] as u64 * 0x100 + bs[pos + 2] as u64 * 0x1_0000 + bs[
        pos + 3] as u64 * 0x100_0000 + bs[pos + 4] as u64 * 0x1_0000_0000 + bs[pos + 5] as u64
        * 0x100_0000_0000 + bs[pos + 6] as u64 * 0x1_0000_0000_0000 + bs[pos + 7] as u64
        * 0x100_0000_0000_0000;
    proof {
        let chunk = bs@.subrange(pos as int, pos as int + 8);
        assert(chunk[0] == bs@[pos as int]);
        assert(chunk[1] == bs@[pos as int + 1]);
        assert(chunk[2] == bs@[pos as int + 2]);
        assert(chunk[3] == bs@[pos as int + 3]);
        assert(chunk[4] == bs@[pos as int + 4]);
        assert(chunk[5] == bs@[pos as int + 5]);
        assert(chunk[6] == bs@[pos as int + 6]);
        assert(chunk[7] == bs@[pos as int + 7]);
    }
    w
}

/// Appends the 8 little-endian bytes of `w` to `out`.
pub fn push_le_word(out: &mut Vec<u8>, w: u64)
    ensures
        final(out)@ == old(out)@ + le_bytes(w),
{
    let ghost prev = out@;
    out.push((w % 0x100) as u8);
    out.push((w / 0x100 % 0x100) as u8);
    out.push((w / 0x1_0000 % 0x100) as u8);
    out.push((w / 0x100_0000 % 0x100) as u8);
    out.push((w / 0x1_0000_0000 % 0x100) as u8);
    out.push((w / 0x100_0000_0000 % 0x100) as u8);
    out.push((w / 0x1_0000_0000_0000 % 0x100) as u8);
    out.push((w / 0x100_0000_0000_0000 % 0x100) as u8);
    proof {
        assert(out@ =~= prev + le_bytes(w));
    }
}

/// Decodes a packed little-endian stream into its words, dropping a short
/// tail as the shared-region read-out does.
pub fn decode_words(bs: &Vec<u8>) -> (ws: Vec<u64>)
    ensures
        ws@ == words_of_bytes(bs@),
{
    let len: usize = bs.len();
    let n: usize = len / 8;
    let mut ws: Vec<u64> = Vec::new();
    let mut i: usize = 0;
    while i < n
        invariant
            i <= n,
            len == bs@.len(),
            n == bs@.len() / 8,
            ws@.len() == i,
            forall|j: int| 0 <= j < i ==> ws@[j] == words_of_bytes(bs@)[j],
        decreases n - i,
    {
        proof {
            assert(8 * (bs@.len() / 8) <= bs@.len());
            assert(8 * (i as int) + 8 <= bs@.len());
        }
        let w = read_le_word(bs, 8 * i);
        ws.push(w);
        i = i + 1;
    }
    proof {
        assert(ws@ =~= words_of_bytes(bs@));
    }
    ws
}

/// Encodes words into their packed little-endian byte stream.
pub fn encode_words(ws: &Vec<u64>) -> (bs: Vec<u8>)
    ensures
        bs@ == bytes_of_words(ws@),
{
    let mut bs: Vec<u8> = Vec::new();
    let mut i: usize = 0;
    while i < ws.len()
        invariant
            i <= ws@.len(),
            bs@ == bytes_of_words(ws@.take(i as int)),
        decreases ws@.len() - i,
    {
        push_le_word(&mut bs, ws[i]);
        proof {
            lemma_bytes_of_words_take_push(ws@, i as int);
        }
        i = i + 1;
    }
    proof {
        assert(ws@.take(ws@.len() as int) =~= ws@);
    }
    bs
}

/// Encoding distributes over concatenation.
pub proof fn lemma_bytes_of_words_concat(s1: Seq<u64>, s2: Seq<u64>)
    ensures
        bytes_of_words(s1 + s2) == bytes_of_words(s1) + bytes_of_words(s2),
    decreases s1.len(),
{
    if s1.len() == 0 {
        assert(s1 + s2 =~= s2);
        assert(bytes_of_words(s1) + bytes_of_words(s2) =~= bytes_of_words(s2));
    } else {
        lemma_bytes_of_words_concat(s1.drop_first(), s2);
        assert((s1 + s2).drop_first() =~= s1.drop_first() + s2);
        assert((s1 + s2)[0] == s1[0]);
        assert(le_bytes(s1[0]) + (bytes_of_words(s1.drop_first()) + bytes_of_words(s2)) =~= (
        le_bytes(s1[0]) + bytes_of_words(s1.drop_first())) + bytes_of_words(s2));
    }
}

/// The encoding of a single word is its little-endian bytes.
proof fn lemma_bytes_of_one_word(w: u64)
    ensures
        bytes_of_words(seq![w]) == le_bytes(w),
{
    assert(seq![w].drop_first() =~= Seq::<u64>::empty());
    assert(seq![w][0] == w);
    assert(bytes_of_words(Seq::<u64>::empty()) =~= Seq::<u8>::empty());
    assert(le_bytes(w) + Seq::<u8>::empty() =~= le_bytes(w));
}

/// Encoding one more word appends its bytes.
proof fn lemma_bytes_of_words_take_push(ws: Seq<u64>, i: int)
    requires
        0 <= i < ws.len(),
    ensures
        bytes_of_words(ws.take(i + 1)) == bytes_of_words(ws.take(i)) + le_bytes(ws[i]),
{
    assert(ws.take(i + 1) =~= ws.take(i) + seq![ws[i]]);
    lemma_bytes_of_words_concat(ws.take(i), seq![ws[i]]);
    lemma_bytes_of_one_word(ws[i]);
}

} // verus!
