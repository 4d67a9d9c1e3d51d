use vstd::prelude::*;
use crate::bytes::{
    be32,
    lemma_word_of_be32,
    lemma_words_at_words_be,
    push_u32_be,
    push_words_be,
    read_u32_be,
    read_words_be,
    word_at,
    words_at,
    words_be,
};

verus! {

/// The first word of every record cache file.
pub const CACHE_MAGIC: u32 = 0x4657_4343;

/// The layout version of record cache files.
pub const CACHE_VERSION: u32 = 1;

/// Length of the namespace fingerprint a cache file is bound to.
pub const FINGERPRINT_LEN: usize = 16;

/// Length of the header of a cache file.
pub const CACHE_HEADER_LEN: usize = 24;

/// Why a record cache cannot be read or written.
#[derive(Clone, Copy, Debug, PartialEq, Eq, Structural)]
pub enum CacheError {
    /// The header's magic, version or fingerprint differs from what is expected.
    Incompatible,
    /// The data ends inside a record, or a record's length is not whole words.
    Truncated,
    /// A frame too long for its length field.
    RecordTooLong,
}

/// The header of a cache file bound to namespace fingerprint `fp`.
pub open spec fn cache_header(fp: Seq<u8>) -> Seq<u8> {
    be32(CACHE_MAGIC) + be32(CACHE_VERSION) + fp
}

/// One frame as stored: its length in bytes, then its words.
pub open spec fn record_bytes(frame: Seq<u32>) -> Seq<u8> {
    be32((4 * frame.len()) as u32) + words_be(frame)
}

/// Frames stored one after another.
pub open spec fn records_bytes(frames: Seq<Seq<u32>>) -> Seq<u8>
    decreases frames.len(),
{
    if frames.len() == 0 {
        Seq::empty()
    } else {
        records_bytes(frames.drop_last()) + record_bytes(frames.last())
    }
}

/// A whole cache file holding `frames`, bound to fingerprint `fp`.
pub open spec fn cache_bytes(fp: Seq<u8>, frames: Seq<Seq<u32>>) -> Seq<u8> {
    cache_header(fp) + records_bytes(frames)
}

/// A frame fits its length field.
pub open spec fn frame_fits(frame: Seq<u32>) -> bool {
    4 * frame.len() <= u32::MAX
}

/// Reading a record at byte offset `pos`: at the end of the data, none (the end
/// of the stream); else the frame and the offset after it, when the data holds a
/// whole one there.
pub open spec fn record_at(data: Seq<u8>, pos: int) -> Result<Option<(Seq<u32>, int)>, CacheError> {
    if pos == data.len() {
        Ok(None)
    } else if pos + 4 > data.len() {
        Err(CacheError::Truncated)
    } else {
        let l = word_at(data, pos) as int;
        if l % 4 != 0 || pos + 4 + l > data.len() {
            Err(CacheError::Truncated)
        } else {
            Ok(Some((words_at(data, pos + 4, l / 4), pos + 4 + l)))
        }
    }
}

/// What a read returns, over views.
pub open spec fn read_view(r: Result<Option<(Vec<u32>, usize)>, CacheError>) -> Result<
    Option<(Seq<u32>, int)>,
    CacheError,
> {
    match r {
        Ok(None) => Ok(None),
        Ok(Some((f, p))) => Ok(Some((f@, p as int))),
        Err(e) => Err(e),
    }
}

/// Starts a cache file bound to the given namespace fingerprint.
pub fn new_cache(fingerprint: &[u8; FINGERPRINT_LEN]) -> (out: Vec<u8>)
    ensures
        out@ == cache_header(fingerprint@),
{
    let mut out: Vec<u8> = Vec::new();
    push_u32_be(&mut out, CACHE_MAGIC);
    push_u32_be(&mut out, CACHE_VERSION);
    let mut i: usize = 0;
    while i < FINGERPRINT_LEN
        invariant
            i <= FINGERPRINT_LEN,
            fingerprint@.len() == FINGERPRINT_LEN,
            out@ == be32(CACHE_MAGIC) + be32(CACHE_VERSION) + fingerprint@.take(i as int),
        decreases FINGERPRINT_LEN - i,
    {
        out.push(fingerprint[i]);
        i = i + 1;
        assert(out@ =~= be32(CACHE_MAGIC) + be32(CACHE_VERSION) + fingerprint@.take(i as int));
    }
    assert(fingerprint@.take(i as int) =~= fingerprint@);
    out
}

/// Appends one frame to a cache: its length in bytes, then its words, all
/// big-endian. A frame too long for the length field is refused and nothing is
/// appended.
pub fn push_record(out: &mut Vec<u8>, frame: &[u32]) -> (r: Result<(), CacheError>)
    ensures
        r is Ok <==> frame_fits(frame@),
        r is Ok ==> final(out)@ == old(out)@ + record_bytes(frame@),
        r is Err ==> r == Err::<(), CacheError>(CacheError::RecordTooLong) && final(out)@ == old(
            out,
        )@,
{
    if frame.len() > 0x3FFF_FFFFusize {
        return Err(CacheError::RecordTooLong);
    }
    push_u32_be(out, (4 * frame.len()) as u32);
    push_words_be(out, frame);
    assert(out@ =~= old(out)@ + record_bytes(frame@));
    Ok(())
}

/// Checks the header of a cache file against the expected namespace fingerprint,
/// and gives the offset of the first record.
pub fn check_header(data: &[u8], fingerprint: &[u8; FINGERPRINT_LEN]) -> (r: Result<
    usize,
    CacheError,
>)
    ensures
        r == (if data@.len() >= CACHE_HEADER_LEN && data@.take(CACHE_HEADER_LEN as int)
            == cache_header(fingerprint@) {
            Ok::<usize, CacheError>(CACHE_HEADER_LEN)
        } else {
            Err(CacheError::Incompatible)
        }),
{
    let expected = new_cache(fingerprint);
    if data.len() < CACHE_HEADER_LEN {
        return Err(CacheError::Incompatible);
    }
    let mut i: usize = 0;
    while i < CACHE_HEADER_LEN
        invariant
            i <= CACHE_HEADER_LEN,
            data@.len() >= CACHE_HEADER_LEN,
            expected@ == cache_header(fingerprint@),
            expected@.len() == CACHE_HEADER_LEN,
            forall|j: int| 0 <= j < i ==> data@[j] == expected@[j],
        decreases CACHE_HEADER_LEN - i,
    {
        if data[i] != expected[i] {
            assert(data@.take(CACHE_HEADER_LEN as int)[i as int] != expected@[i as int]);
            return Err(CacheError::Incompatible);
        }
        i = i + 1;
    }
    assert(data@.take(CACHE_HEADER_LEN as int) =~= expected@);
    Ok(CACHE_HEADER_LEN)
}

/// Reads the record at byte offset `pos`: none at the end of the data (the end
/// of the stream), else the frame and the offset of the next record; a record cut
/// short, or whose length is not whole words, is an error.
pub fn read_record(data: &[u8], pos: usize) -> (r: Result<Option<(Vec<u32>, usize)>, CacheError>)
    requires
        pos <= data@.len(),
    ensures
        read_view(r) == record_at(data@, pos as int),
{
    let len = data.len();
    if pos == len {
        return Ok(None);
    }
    if len - pos < 4 {
        return Err(CacheError::Truncated);
    }
    let l = read_u32_be(data, pos);
    if l % 4 != 0 || (len - pos - 4) < l as usize {
        return Err(CacheError::Truncated);
    }
    let frame = read_words_be(data, pos + 4, (l / 4) as usize);
    Ok(Some((frame, pos + 4 + l as usize)))
}

/// The offset of the `i`-th record in a cache file holding `frames`.
pub open spec fn record_offset(frames: Seq<Seq<u32>>, i: int) -> int {
    CACHE_HEADER_LEN + records_bytes(frames.take(i)).len()
}

proof fn lemma_records_bytes_prefix(frames: Seq<Seq<u32>>, j: int)
    requires
        0 <= j <= frames.len(),
    ensures
        records_bytes(frames.take(j)).len() <= records_bytes(frames).len(),
        records_bytes(frames).take(records_bytes(frames.take(j)).len() as int) == records_bytes(
            frames.take(j),
        ),
    decreases frames.len() - j,
{
    if j == frames.len() {
        assert(frames.take(j) =~= frames);
        assert(records_bytes(frames).take(records_bytes(frames).len() as int) =~= records_bytes(
            frames,
        ));
    } else {
        lemma_records_bytes_prefix(frames, j + 1);
        assert(frames.take(j + 1).drop_last() =~= frames.take(j));
        let a = records_bytes(frames.take(j));
        let b = records_bytes(frames.take(j + 1));
        assert(b == a + record_bytes(frames[j]));
        assert(records_bytes(frames).take(a.len() as int) =~= b.take(a.len() as int));
        assert(b.take(a.len() as int) =~= a);
    }
}

/// Writing frames to a cache and reading them back gives the same frames: the
/// header checks against the fingerprint it was written with, each record read
/// from the offset where the previous one ended is the next frame, and after the
/// last one the stream ends.
pub proof fn lemma_cache_round_trip(fp: Seq<u8>, frames: Seq<Seq<u32>>)
    requires
        fp.len() == FINGERPRINT_LEN,
        forall|i: int| 0 <= i < frames.len() ==> frame_fits(#[trigger] frames[i]),
    ensures
        cache_bytes(fp, frames).len() >= CACHE_HEADER_LEN,
        cache_bytes(fp, frames).take(CACHE_HEADER_LEN as int) == cache_header(fp),
        record_offset(frames, 0) == CACHE_HEADER_LEN,
        forall|i: int|
            0 <= i < frames.len() ==> #[trigger] record_at(cache_bytes(fp, frames), record_offset(frames, i))
                == Ok::<Option<(Seq<u32>, int)>, CacheError>(
                Some((frames[i], record_offset(frames, i + 1))),
            ),
        record_at(cache_bytes(fp, frames), record_offset(frames, frames.len() as int)) == Ok::<
            Option<(Seq<u32>, int)>,
            CacheError,
        >(None),
{
    let data = cache_bytes(fp, frames);
    let h = cache_header(fp);
    assert(h.len() == CACHE_HEADER_LEN);
    assert(data.take(CACHE_HEADER_LEN as int) =~= h);
    assert(frames.take(0) =~= Seq::<Seq<u32>>::empty());
    assert(frames.take(frames.len() as int) =~= frames);
    assert forall|i: int| 0 <= i < frames.len() implies #[trigger] record_at(data, record_offset(frames, i))
        == Ok::<Option<(Seq<u32>, int)>, CacheError>(
        Some((frames[i], record_offset(frames, i + 1))),
    ) by {
        let f = frames[i];
        let a = records_bytes(frames.take(i));
        let b = records_bytes(frames.take(i + 1));
        assert(frames.take(i + 1).drop_last() =~= frames.take(i));
        assert(b == a + record_bytes(f));
        lemma_records_bytes_prefix(frames, i + 1);
        let pos = CACHE_HEADER_LEN + a.len();
        let rec = record_bytes(f);
        assert(frame_fits(f));
        assert forall|k: int| 0 <= k < rec.len() implies data[pos + k] == rec[k] by {
            assert(data[pos + k] == records_bytes(frames)[a.len() + k]);
            assert(records_bytes(frames)[a.len() + k] == records_bytes(frames).take(
                b.len() as int,
            )[a.len() + k]);
            assert(b[a.len() + k] == rec[k]);
        }
        let l = (4 * f.len()) as u32;
        assert(rec[0] == be32(l)[0] && rec[1] == be32(l)[1]);
        assert(rec[2] == be32(l)[2] && rec[3] == be32(l)[3]);
        assert(data[pos + 0] == rec[0] && data[pos + 1] == rec[1]);
        assert(data[pos + 2] == rec[2] && data[pos + 3] == rec[3]);
        assert(data[pos] == be32(l)[0]);
        assert(data[pos + 1] == be32(l)[1]);
        assert(data[pos + 2] == be32(l)[2]);
        assert(data[pos + 3] == be32(l)[3]);
        lemma_word_of_be32(l);
        assert(word_at(data, pos) == l);
        assert forall|k: int| 0 <= k < 4 * f.len() implies #[trigger] data.subrange(
            pos + 4,
            pos + 4 + 4 * f.len(),
        )[k] == words_be(f)[k] by {
            assert(data[pos + (4 + k)] == rec[4 + k]);
        }
        assert(data.subrange(pos + 4, pos + 4 + 4 * f.len()) =~= words_be(f));
        lemma_words_at_words_be(data, pos + 4, f);
        assert((4 * f.len()) / 4 == f.len());
    }
}

} // verus!
