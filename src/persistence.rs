use vstd::prelude::*;
use crate::quantization::{
    dequantize_ffm_weights_3by,
    quantize_ffm_weights_3by,
    quantized_round_trip,
    top_three_bytes,
    word_from_top_three,
};
use crate::bytes::{
    be32,
    lemma_word_of_be32,
    lemma_words_at_words_be,
    push_u32_be,
    push_words_be,
    read_u32_be,
    read_words_be,
    word_at,
    words_at,
    words_be,
};

verus! {

/// The first word of every model snapshot.
pub const SNAPSHOT_MAGIC: u32 = 0x4657_4d53;

/// The layout version of model snapshots.
pub const SNAPSHOT_VERSION: u32 = 1;

/// Length of the header of a snapshot: magic, version, fingerprint, the two
/// region sizes and the optimizer-state flag.
pub const SNAPSHOT_HEADER_LEN: usize = 36;

/// Why a snapshot cannot be saved or loaded.
#[derive(Clone, Copy, Debug, PartialEq, Eq, Structural)]
pub enum SnapshotError {
    /// The magic, version or namespace fingerprint differs from what is expected.
    Incompatible,
    /// The data is shorter or longer than its header says.
    Truncated,
    /// A region too large for its size field, or optimizer state whose length is
    /// not that of the weights.
    Malformed,
}

/// A model's weights, as the bit patterns of 32-bit floats: the linear region,
/// the FFM region and, unless the snapshot is for inference only, the optimizer
/// state of each weight.
pub struct Snapshot {
    pub fingerprint: [u8; 16],
    pub linear: Vec<u32>,
    pub ffm: Vec<u32>,
    pub optimizer_state: Option<Vec<u32>>,
}

/// The optimizer state over views.
pub open spec fn opt_view(o: Option<Vec<u32>>) -> Option<Seq<u32>> {
    match o {
        Some(v) => Some(v@),
        None => None,
    }
}

/// Weights that a snapshot can hold: each size fits its field, and optimizer
/// state, where present, has one word per weight.
pub open spec fn valid_weights(linear: Seq<u32>, ffm: Seq<u32>, opt: Option<Seq<u32>>) -> bool {
    &&& 4 * (linear.len() + ffm.len()) <= u32::MAX
    &&& match opt {
        Some(s) => s.len() == linear.len() + ffm.len(),
        None => true,
    }
}

/// The bytes of a snapshot: magic, version, fingerprint, the sizes of the linear
/// and FFM regions, whether optimizer state follows, then the regions and the
/// state, all words big-endian.
pub open spec fn snapshot_bytes(
    fp: Seq<u8>,
    linear: Seq<u32>,
    ffm: Seq<u32>,
    opt: Option<Seq<u32>>,
) -> Seq<u8> {
    be32(SNAPSHOT_MAGIC) + be32(SNAPSHOT_VERSION) + fp + be32(linear.len() as u32) + be32(
        ffm.len() as u32,
    ) + be32(if opt is Some { 1u32 } else { 0u32 }) + words_be(linear) + words_be(ffm) + match opt {
        Some(s) => words_be(s),
        None => Seq::empty(),
    }
}

/// `n` weights stored quantized from byte offset `pos` on, three bytes each.
pub open spec fn quantized_at(data: Seq<u8>, pos: int, n: int) -> Seq<u32> {
    Seq::new(
        n as nat,
        |i: int| word_from_top_three(data[pos + 3 * i], data[pos + 3 * i + 1], data[pos + 3 * i + 2]),
    )
}

/// Weights stored quantized: the three most-significant bytes of each.
pub open spec fn quantized_bytes(ws: Seq<u32>) -> Seq<u8> {
    Seq::new(3 * ws.len(), |j: int| top_three_bytes(ws[j / 3])[j % 3])
}

/// The bytes of an inference-only snapshot whose FFM region is quantized: as
/// `snapshot_bytes` with no optimizer state, but with flag 2 and three bytes for
/// each FFM weight.
pub open spec fn quantized_snapshot_bytes(fp: Seq<u8>, linear: Seq<u32>, ffm: Seq<u32>) -> Seq<u8> {
    be32(SNAPSHOT_MAGIC) + be32(SNAPSHOT_VERSION) + fp + be32(linear.len() as u32) + be32(
        ffm.len() as u32,
    ) + be32(2u32) + words_be(linear) + quantized_bytes(ffm)
}

/// Loading a snapshot from `data`, bound to fingerprint `fp`: the regions and
/// the optimizer state, or why not.
pub open spec fn snapshot_from(data: Seq<u8>, fp: Seq<u8>) -> Result<
    (Seq<u32>, Seq<u32>, Option<Seq<u32>>),
    SnapshotError,
> {
    if data.len() < SNAPSHOT_HEADER_LEN || word_at(data, 0) != SNAPSHOT_MAGIC || word_at(data, 4)
        != SNAPSHOT_VERSION || data.subrange(8, 24) != fp {
        Err(SnapshotError::Incompatible)
    } else {
        let nl = word_at(data, 24) as int;
        let nf = word_at(data, 28) as int;
        let flag = word_at(data, 32);
        if flag > 2 {
            Err(SnapshotError::Malformed)
        } else if flag == 2 {
            if data.len() != SNAPSHOT_HEADER_LEN + 4 * nl + 3 * nf {
                Err(SnapshotError::Truncated)
            } else {
                let pos = SNAPSHOT_HEADER_LEN as int;
                Ok((words_at(data, pos, nl), quantized_at(data, pos + 4 * nl, nf), None))
            }
        } else {
            let words = if flag == 1 { 2 * (nl + nf) } else { nl + nf };
            if data.len() != SNAPSHOT_HEADER_LEN + 4 * words {
                Err(SnapshotError::Truncated)
            } else {
                let pos = SNAPSHOT_HEADER_LEN as int;
                Ok(
                    (
                        words_at(data, pos, nl),
                        words_at(data, pos + 4 * nl, nf),
                        if flag == 1 {
                            Some(words_at(data, pos + 4 * (nl + nf), nl + nf))
                        } else {
                            None
                        },
                    ),
                )
            }
        }
    }
}

/// What a load returns, over views.
pub open spec fn load_view(r: Result<Snapshot, SnapshotError>) -> Result<
    (Seq<u32>, Seq<u32>, Option<Seq<u32>>),
    SnapshotError,
> {
    match r {
        Ok(s) => Ok((s.linear@, s.ffm@, opt_view(s.optimizer_state))),
        Err(e) => Err(e),
    }
}

/// Serializes a snapshot. Refused, with nothing written, where the weights do not
/// fit the layout.
pub fn save_snapshot(s: &Snapshot) -> (r: Result<Vec<u8>, SnapshotError>)
    ensures
        r is Ok <==> valid_weights(s.linear@, s.ffm@, opt_view(s.optimizer_state)),
        r is Ok ==> r->Ok_0@ == snapshot_bytes(
            s.fingerprint@,
            s.linear@,
            s.ffm@,
            opt_view(s.optimizer_state),
        ),
        r is Err ==> r == Err::<Vec<u8>, SnapshotError>(SnapshotError::Malformed),
{
    let nl = s.linear.len();
    let nf = s.ffm.len();
    if nl > 0x3FFF_FFFFusize || nf > 0x3FFF_FFFFusize - nl {
        return Err(SnapshotError::Malformed);
    }
    match &s.optimizer_state {
        Some(o) => {
            if o.len() != nl + nf {
                return Err(SnapshotError::Malformed);
            }
        },
        None => {},
    }
    let mut out: Vec<u8> = Vec::new();
    push_u32_be(&mut out, SNAPSHOT_MAGIC);
    push_u32_be(&mut out, SNAPSHOT_VERSION);
    let mut i: usize = 0;
    while i < 16
        invariant
            i <= 16,
            s.fingerprint@.len() == 16,
            out@ == be32(SNAPSHOT_MAGIC) + be32(SNAPSHOT_VERSION) + s.fingerprint@.take(i as int),
        decreases 16 - i,
    {
        out.push(s.fingerprint[i]);
        i = i + 1;
        assert(out@ =~= be32(SNAPSHOT_MAGIC) + be32(SNAPSHOT_VERSION) + s.fingerprint@.take(
            i as int,
        ));
    }
    assert(s.fingerprint@.take(16) =~= s.fingerprint@);
    push_u32_be(&mut out, nl as u32);
    push_u32_be(&mut out, nf as u32);
    let flag: u32 = if s.optimizer_state.is_some() {
        1
    } else {
        0
    };
    push_u32_be(&mut out, flag);
    push_words_be(&mut out, s.linear.as_slice());
    push_words_be(&mut out, s.ffm.as_slice());
    match &s.optimizer_state {
        Some(o) => {
            push_words_be(&mut out, o.as_slice());
        },
        None => {},
    }
    assert(out@ =~= snapshot_bytes(
        s.fingerprint@,
        s.linear@,
        s.ffm@,
        opt_view(s.optimizer_state),
    ));
    Ok(out)
}

/// Loads a snapshot bound to the expected namespace fingerprint: refused where
/// magic, version or fingerprint differ, or where the data's length is not the
/// one its header gives.
pub fn load_snapshot(data: &[u8], fingerprint: &[u8; 16]) -> (r: Result<Snapshot, SnapshotError>)
    ensures
        load_view(r) == snapshot_from(data@, fingerprint@),
        r is Ok ==> r->Ok_0.fingerprint@ == fingerprint@,
{
    let len = data.len();
    if len < SNAPSHOT_HEADER_LEN {
        return Err(SnapshotError::Incompatible);
    }
    if read_u32_be(data, 0) != SNAPSHOT_MAGIC || read_u32_be(data, 4) != SNAPSHOT_VERSION {
        return Err(SnapshotError::Incompatible);
    }
    let mut i: usize = 0;
    while i < 16
        invariant
            i <= 16,
            len == data@.len(),
            len >= SNAPSHOT_HEADER_LEN,
            fingerprint@.len() == 16,
            forall|j: int| 0 <= j < i ==> data@[8 + j] == fingerprint@[j],
        decreases 16 - i,
    {
        if data[8 + i] != fingerprint[i] {
            assert(data@.subrange(8, 24)[i as int] != fingerprint@[i as int]);
            return Err(SnapshotError::Incompatible);
        }
        i = i + 1;
    }
    assert(data@.subrange(8, 24) =~= fingerprint@);
    let nl = read_u32_be(data, 24) as usize;
    let nf = read_u32_be(data, 28) as usize;
    let flag = read_u32_be(data, 32);
    if flag > 2 {
        return Err(SnapshotError::Malformed);
    }
    if flag == 2 {
        let body: u64 = 4 * (nl as u64) + 3 * (nf as u64);
        if (len - SNAPSHOT_HEADER_LEN) as u64 != body {
            return Err(SnapshotError::Truncated);
        }
        let linear = read_words_be(data, SNAPSHOT_HEADER_LEN, nl);
        let start = SNAPSHOT_HEADER_LEN + 4 * nl;
        let mut ffm: Vec<u32> = Vec::new();
        let mut i: usize = 0;
        while i < nf
            invariant
                i <= nf,
                ffm@.len() == i,
            decreases nf - i,
        {
            ffm.push(0);
            i = i + 1;
        }
        let packed = vstd::slice::slice_subrange(data, start, start + 3 * nf);
        let r = dequantize_ffm_weights_3by(packed, &mut ffm);
        assert(r is Ok);
        assert(ffm@ =~= quantized_at(data@, start as int, nf as int));
        return Ok(Snapshot { fingerprint: *fingerprint, linear, ffm, optimizer_state: None });
    }
    let words: u64 = if flag == 1 {
        2 * (nl as u64 + nf as u64)
    } else {
        nl as u64 + nf as u64
    };
    if (len - SNAPSHOT_HEADER_LEN) as u64 % 4 != 0 || (len - SNAPSHOT_HEADER_LEN) as u64 / 4
        != words {
        return Err(SnapshotError::Truncated);
    }
    let linear = read_words_be(data, SNAPSHOT_HEADER_LEN, nl);
    let ffm = read_words_be(data, SNAPSHOT_HEADER_LEN + 4 * nl, nf);
    let optimizer_state = if flag == 1 {
        Some(read_words_be(data, SNAPSHOT_HEADER_LEN + 4 * (nl + nf), nl + nf))
    } else {
        None
    };
    Ok(Snapshot { fingerprint: *fingerprint, linear, ffm, optimizer_state })
}

/// Serializes a snapshot for inference only, with its FFM region quantized to
/// three bytes per weight; optimizer state is not stored. Refused, with nothing
/// written, where the weights do not fit the layout.
pub fn save_quantized_snapshot(s: &Snapshot) -> (r: Result<Vec<u8>, SnapshotError>)
    ensures
        r is Ok <==> valid_weights(s.linear@, s.ffm@, None),
        r is Ok ==> r->Ok_0@ == quantized_snapshot_bytes(s.fingerprint@, s.linear@, s.ffm@),
        r is Err ==> r == Err::<Vec<u8>, SnapshotError>(SnapshotError::Malformed),
{
    let nl = s.linear.len();
    let nf = s.ffm.len();
    if nl > 0x3FFF_FFFFusize || nf > 0x3FFF_FFFFusize - nl {
        return Err(SnapshotError::Malformed);
    }
    let mut out: Vec<u8> = Vec::new();
    push_u32_be(&mut out, SNAPSHOT_MAGIC);
    push_u32_be(&mut out, SNAPSHOT_VERSION);
    let mut i: usize = 0;
    while i < 16
        invariant
            i <= 16,
            s.fingerprint@.len() == 16,
            out@ == be32(SNAPSHOT_MAGIC) + be32(SNAPSHOT_VERSION) + s.fingerprint@.take(i as int),
        decreases 16 - i,
    {
        out.push(s.fingerprint[i]);
        i = i + 1;
        assert(out@ =~= be32(SNAPSHOT_MAGIC) + be32(SNAPSHOT_VERSION) + s.fingerprint@.take(
            i as int,
        ));
    }
    assert(s.fingerprint@.take(16) =~= s.fingerprint@);
    push_u32_be(&mut out, nl as u32);
    push_u32_be(&mut out, nf as u32);
    push_u32_be(&mut out, 2);
    push_words_be(&mut out, s.linear.as_slice());
    let q = quantize_ffm_weights_3by(s.ffm.as_slice());
    let ghost prefix = out@;
    let mut j: usize = 0;
    while j < q.len()
        invariant
            j <= q@.len(),
            q@.len() == s.ffm@.len(),
            forall|m: int| 0 <= m < s.ffm@.len() ==> q@[m]@ == top_three_bytes(#[trigger] s.ffm@[m]),
            out@ == prefix + quantized_bytes(s.ffm@.take(j as int)),
        decreases q@.len() - j,
    {
        let b = q[j];
        let ghost before = out@;
        assert(b@ == top_three_bytes(s.ffm@[j as int]));
        out.push(b[0]);
        out.push(b[1]);
        out.push(b[2]);
        j = j + 1;
        assert(quantized_bytes(s.ffm@.take(j as int)) =~= quantized_bytes(s.ffm@.take(j - 1)) + top_three_bytes(s.ffm@[j - 1]));
        assert(out@ =~= prefix + quantized_bytes(s.ffm@.take(j as int)));
    }
    assert(s.ffm@.take(j as int) =~= s.ffm@);
    assert(out@ =~= quantized_snapshot_bytes(s.fingerprint@, s.linear@, s.ffm@));
    Ok(out)
}

/// Loading what was saved gives back the same weights and optimizer state; so
/// saving, loading and saving again gives the same bytes.
pub proof fn lemma_snapshot_round_trip(
    fp: Seq<u8>,
    linear: Seq<u32>,
    ffm: Seq<u32>,
    opt: Option<Seq<u32>>,
)
    requires
        fp.len() == 16,
        valid_weights(linear, ffm, opt),
    ensures
        snapshot_from(snapshot_bytes(fp, linear, ffm, opt), fp) == Ok::<
            (Seq<u32>, Seq<u32>, Option<Seq<u32>>),
            SnapshotError,
        >((linear, ffm, opt)),
        match snapshot_from(snapshot_bytes(fp, linear, ffm, opt), fp) {
            Ok((l, f, o)) => snapshot_bytes(fp, l, f, o) == snapshot_bytes(fp, linear, ffm, opt),
            Err(_) => false,
        },
{
    let data = snapshot_bytes(fp, linear, ffm, opt);
    let flag: u32 = if opt is Some { 1u32 } else { 0u32 };
    let nl = linear.len() as u32;
    let nf = ffm.len() as u32;
    let hdr = be32(SNAPSHOT_MAGIC) + be32(SNAPSHOT_VERSION) + fp + be32(nl) + be32(nf) + be32(flag);
    let rest = match opt {
        Some(s) => words_be(s),
        None => Seq::<u8>::empty(),
    };
    assert(data == hdr + words_be(linear) + words_be(ffm) + rest);
    assert(hdr.len() == SNAPSHOT_HEADER_LEN);
    assert forall|j: int| 0 <= j < SNAPSHOT_HEADER_LEN implies data[j] == hdr[j] by {}
    lemma_word_of_be32(SNAPSHOT_MAGIC);
    lemma_word_of_be32(SNAPSHOT_VERSION);
    lemma_word_of_be32(nl);
    lemma_word_of_be32(nf);
    lemma_word_of_be32(flag);
    assert(data[0] == hdr[0] && data[1] == hdr[1] && data[2] == hdr[2] && data[3] == hdr[3]);
    assert(data[4] == hdr[4] && data[5] == hdr[5] && data[6] == hdr[6] && data[7] == hdr[7]);
    assert(data[24] == hdr[24] && data[25] == hdr[25] && data[26] == hdr[26] && data[27] == hdr[27]);
    assert(data[28] == hdr[28] && data[29] == hdr[29] && data[30] == hdr[30] && data[31] == hdr[31]);
    assert(data[32] == hdr[32] && data[33] == hdr[33] && data[34] == hdr[34] && data[35] == hdr[35]);
    assert(word_at(data, 0) == SNAPSHOT_MAGIC);
    assert(word_at(data, 4) == SNAPSHOT_VERSION);
    assert(word_at(data, 24) == nl);
    assert(word_at(data, 28) == nf);
    assert(word_at(data, 32) == flag);
    assert forall|j: int| 0 <= j < 16 implies #[trigger] data.subrange(8, 24)[j] == fp[j] by {
        assert(data[8 + j] == hdr[8 + j]);
    }
    assert(data.subrange(8, 24) =~= fp);
    let start_linear = SNAPSHOT_HEADER_LEN as int;
    let start_ffm = start_linear + 4 * linear.len();
    let start_state = start_ffm + 4 * ffm.len();
    assert(data.subrange(start_linear, start_ffm) =~= words_be(linear));
    assert(data.subrange(start_ffm, start_state) =~= words_be(ffm));
    lemma_words_at_words_be(data, start_linear, linear);
    lemma_words_at_words_be(data, start_ffm, ffm);
    match opt {
        Some(s) => {
            assert(data.subrange(start_state, start_state + 4 * s.len()) =~= words_be(s));
            lemma_words_at_words_be(data, start_state, s);
        },
        None => {},
    }
}

/// Loading a quantized snapshot gives back the linear region as saved and each
/// FFM weight as quantization and dequantization leave it, with no optimizer state.
pub proof fn lemma_quantized_snapshot_round_trip(fp: Seq<u8>, linear: Seq<u32>, ffm: Seq<u32>)
    requires
        fp.len() == 16,
        valid_weights(linear, ffm, None),
    ensures
        snapshot_from(quantized_snapshot_bytes(fp, linear, ffm), fp) == Ok::<
            (Seq<u32>, Seq<u32>, Option<Seq<u32>>),
            SnapshotError,
        >((linear, ffm.map_values(|w: u32| quantized_round_trip(w)), None)),
{
    let data = quantized_snapshot_bytes(fp, linear, ffm);
    let nl = linear.len() as u32;
    let nf = ffm.len() as u32;
    let hdr = be32(SNAPSHOT_MAGIC) + be32(SNAPSHOT_VERSION) + fp + be32(nl) + be32(nf) + be32(2u32);
    assert(data == hdr + words_be(linear) + quantized_bytes(ffm));
    assert(hdr.len() == SNAPSHOT_HEADER_LEN);
    assert forall|j: int| 0 <= j < SNAPSHOT_HEADER_LEN implies data[j] == hdr[j] by {}
    lemma_word_of_be32(SNAPSHOT_MAGIC);
    lemma_word_of_be32(SNAPSHOT_VERSION);
    lemma_word_of_be32(nl);
    lemma_word_of_be32(nf);
    lemma_word_of_be32(2u32);
    assert(data[0] == hdr[0] && data[1] == hdr[1] && data[2] == hdr[2] && data[3] == hdr[3]);
    assert(data[4] == hdr[4] && data[5] == hdr[5] && data[6] == hdr[6] && data[7] == hdr[7]);
    assert(data[24] == hdr[24] && data[25] == hdr[25] && data[26] == hdr[26] && data[27] == hdr[27]);
    assert(data[28] == hdr[28] && data[29] == hdr[29] && data[30] == hdr[30] && data[31] == hdr[31]);
    assert(data[32] == hdr[32] && data[33] == hdr[33] && data[34] == hdr[34] && data[35] == hdr[35]);
    assert(word_at(data, 0) == SNAPSHOT_MAGIC);
    assert(word_at(data, 4) == SNAPSHOT_VERSION);
    assert(word_at(data, 24) == nl);
    assert(word_at(data, 28) == nf);
    assert(word_at(data, 32) == 2u32);
    assert forall|j: int| 0 <= j < 16 implies #[trigger] data.subrange(8, 24)[j] == fp[j] by {
        assert(data[8 + j] == hdr[8 + j]);
    }
    assert(data.subrange(8, 24) =~= fp);
    let start_linear = SNAPSHOT_HEADER_LEN as int;
    let start_ffm = start_linear + 4 * linear.len();
    assert(data.subrange(start_linear, start_ffm) =~= words_be(linear));
    lemma_words_at_words_be(data, start_linear, linear);
    let q = quantized_bytes(ffm);
    assert forall|i: int| 0 <= i < ffm.len() implies #[trigger] quantized_at(data, start_ffm, ffm.len() as int)[i]
        == quantized_round_trip(ffm[i]) by {
        assert(data[start_ffm + 3 * i] == q[3 * i]);
        assert(data[start_ffm + 3 * i + 1] == q[3 * i + 1]);
        assert(data[start_ffm + 3 * i + 2] == q[3 * i + 2]);
        assert((3 * i) / 3 == i && (3 * i) % 3 == 0);
        assert((3 * i + 1) / 3 == i && (3 * i + 1) % 3 == 1);
        assert((3 * i + 2) / 3 == i && (3 * i + 2) % 3 == 2);
    }
    assert(quantized_at(data, start_ffm, ffm.len() as int) =~= ffm.map_values(
        |w: u32| quantized_round_trip(w),
    ));
}

} // verus!
