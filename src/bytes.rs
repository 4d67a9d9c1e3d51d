use vstd::prelude::*;

verus! {

/// The big-endian form of a 32-bit word.
pub open spec fn be32(w: u32) -> Seq<u8> {
    seq![(w >> 24u32) as u8, (w >> 16u32) as u8, (w >> 8u32) as u8, w as u8]
}

/// The 32-bit word whose big-endian form is `b0 b1 b2 b3`.
pub open spec fn word_of(b0: u8, b1: u8, b2: u8, b3: u8) -> u32 {
    ((b0 as u32) << 24u32) | ((b1 as u32) << 16u32) | ((b2 as u32) << 8u32) | (b3 as u32)
}

/// The big-endian word read from `s` at byte offset `pos`.
pub open spec fn word_at(s: Seq<u8>, pos: int) -> u32 {
    word_of(s[pos], s[pos + 1], s[pos + 2], s[pos + 3])
}

/// The words laid out one after another, each in big-endian form.
pub open spec fn words_be(ws: Seq<u32>) -> Seq<u8> {
    Seq::new(4 * ws.len(), |j: int| be32(ws[j / 4])[j % 4])
}

/// `n` big-endian words read from `s` from byte offset `pos` on.
pub open spec fn words_at(s: Seq<u8>, pos: int, n: int) -> Seq<u32> {
    Seq::new(n as nat, |i: int| word_at(s, pos + 4 * i))
}

/// Reading back the big-endian form of a word gives the word.
pub proof fn lemma_word_of_be32(w: u32)
    ensures
        word_of(be32(w)[0], be32(w)[1], be32(w)[2], be32(w)[3]) == w,
{
    let b0 = (w >> 24u32) as u8;
    let b1 = (w >> 16u32) as u8;
    let b2 = (w >> 8u32) as u8;
    let b3 = w as u8;
    assert(((b0 as u32) << 24u32) | ((b1 as u32) << 16u32) | ((b2 as u32) << 8u32) | (b3 as u32)
        == w) by (bit_vector)
        requires
            b0 == (w >> 24u32) as u8,
            b1 == (w >> 16u32) as u8,
            b2 == (w >> 8u32) as u8,
            b3 == w as u8,
    ;
}

/// Appending a word to a sequence appends its big-endian form to the layout.
pub proof fn lemma_words_be_push(ws: Seq<u32>, w: u32)
    ensures
        words_be(ws.push(w)) =~= words_be(ws) + be32(w),
{
    let a = words_be(ws.push(w));
    let b = words_be(ws) + be32(w);
    assert forall|j: int| 0 <= j < a.len() implies a[j] == b[j] by {
        if j < 4 * ws.len() {
            assert(ws.push(w)[j / 4] == ws[j / 4]);
        } else {
            assert(j / 4 == ws.len());
        }
    }
}

/// Where the layout of `ws` stands in `s` at `pos`, the words read from there are `ws`.
pub proof fn lemma_words_at_words_be(s: Seq<u8>, pos: int, ws: Seq<u32>)
    requires
        0 <= pos,
        pos + 4 * ws.len() <= s.len(),
        s.subrange(pos, pos + 4 * ws.len()) == words_be(ws),
    ensures
        words_at(s, pos, ws.len() as int) =~= ws,
{
    assert forall|i: int| 0 <= i < ws.len() implies #[trigger] word_at(s, pos + 4 * i) == ws[i] by {
        let l = words_be(ws);
        assert(s[pos + 4 * i] == l[4 * i]);
        assert(s[pos + 4 * i + 1] == l[4 * i + 1]);
        assert(s[pos + 4 * i + 2] == l[4 * i + 2]);
        assert(s[pos + 4 * i + 3] == l[4 * i + 3]);
        assert((4 * i) / 4 == i && (4 * i) % 4 == 0);
        assert((4 * i + 1) / 4 == i && (4 * i + 1) % 4 == 1);
        assert((4 * i + 2) / 4 == i && (4 * i + 2) % 4 == 2);
        assert((4 * i + 3) / 4 == i && (4 * i + 3) % 4 == 3);
        lemma_word_of_be32(ws[i]);
    }
}

/// Appends the big-endian form of `w`.
pub fn push_u32_be(out: &mut Vec<u8>, w: u32)
    ensures
        final(out)@ == old(out)@ + be32(w),
{
    out.push((w >> 24u32) as u8);
    out.push((w >> 16u32) as u8);
    out.push((w >> 8u32) as u8);
    out.push(w as u8);
    assert(out@ =~= old(out)@ + be32(w));
}

/// Reads the big-endian word at byte offset `pos`.
pub fn read_u32_be(s: &[u8], pos: usize) -> (w: u32)
    requires
        pos + 4 <= s@.len(),
    ensures
        w == word_at(s@, pos as int),
{
    ((s[pos] as u32) << 24u32) | ((s[pos + 1] as u32) << 16u32) | ((s[pos + 2] as u32) << 8u32)
        | (s[pos + 3] as u32)
}

/// Appends the words in big-endian form, one after another.
pub fn push_words_be(out: &mut Vec<u8>, ws: &[u32])
    ensures
        final(out)@ == old(out)@ + words_be(ws@),
{
    let mut i: usize = 0;
    while i < ws.len()
        invariant
            i <= ws@.len(),
            out@ == old(out)@ + words_be(ws@.take(i as int)),
        decreases ws@.len() - i,
    {
        proof {
            lemma_words_be_push(ws@.take(i as int), ws@[i as int]);
            assert(ws@.take(i as int).push(ws@[i as int]) =~= ws@.take(i + 1));
        }
        push_u32_be(out, ws[i]);
        i = i + 1;
        assert(out@ =~= old(out)@ + words_be(ws@.take(i as int)));
    }
    assert(ws@.take(i as int) =~= ws@);
}

/// Reads `n` big-endian words from byte offset `pos` on.
pub fn read_words_be(s: &[u8], pos: usize, n: usize) -> (ws: Vec<u32>)
    requires
        pos + 4 * n <= s@.len(),
    ensures
        ws@ == words_at(s@, pos as int, n as int),
{
    let mut ws: Vec<u32> = Vec::with_capacity(n);
    let len = s.len();
    let mut i: usize = 0;
    while i < n
        invariant
            len == s@.len(),
            i <= n,
            pos + 4 * n <= s@.len(),
            ws@ =~= words_at(s@, pos as int, i as int),
        decreases n - i,
    {
        let w = read_u32_be(s, pos + 4 * i);
        ws.push(w);
        i = i + 1;
        assert(ws@ =~= words_at(s@, pos as int, i as int));
    }
    ws
}

} // verus!
