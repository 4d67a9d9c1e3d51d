use vstd::prelude::*;

verus! {

/// One feature of a parsed frame: its hashed key and the bit pattern of its
/// 32-bit float value.
#[derive(Clone, Copy, Debug, PartialEq, Eq, Structural)]
pub struct Feature {
    pub hash: u32,
    pub value: u32,
}

/// The words of one namespace's sub-segment: its id, its feature count, then
/// each feature's hash and value.
pub open spec fn segment_words(id: u32, fs: Seq<Feature>) -> Seq<u32> {
    seq![id, fs.len() as u32] + Seq::new(2 * fs.len(), |j: int|
        if j % 2 == 0 { fs[j / 2].hash } else { fs[j / 2].value })
}

/// The sub-segments of namespaces `0 .. segs.len()`, in id order.
pub open spec fn segments_words(segs: Seq<Seq<Feature>>) -> Seq<u32>
    decreases segs.len(),
{
    if segs.len() == 0 {
        Seq::empty()
    } else {
        segments_words(segs.drop_last()) + segment_words(
            (segs.len() - 1) as u32,
            segs.last(),
        )
    }
}

/// A parsed frame: label word, importance word, then one sub-segment for each
/// namespace id, in order.
pub open spec fn frame_words(label: u32, importance: u32, segs: Seq<Seq<Feature>>) -> Seq<u32> {
    seq![label, importance] + segments_words(segs)
}

/// Where the sub-segment of namespace `i` starts in a frame.
pub open spec fn segment_offset(segs: Seq<Seq<Feature>>, i: int) -> int {
    2 + segments_words(segs.take(i)).len() as int
}

/// Frames whose namespace ids and feature counts fit their words.
pub open spec fn segments_fit(segs: Seq<Seq<Feature>>) -> bool {
    &&& segs.len() <= u32::MAX + 1
    &&& forall|i: int| 0 <= i < segs.len() ==> #[trigger] segs[i].len() <= u32::MAX
}

/// Appends namespace `id`'s sub-segment.
fn push_segment(out: &mut Vec<u32>, id: u32, fs: &[Feature])
    requires
        fs@.len() <= u32::MAX,
    ensures
        final(out)@ == old(out)@ + segment_words(id, fs@),
{
    out.push(id);
    out.push(fs.len() as u32);
    let mut i: usize = 0;
    while i < fs.len()
        invariant
            i <= fs@.len(),
            fs@.len() <= u32::MAX,
            out@ == old(out)@ + seq![id, fs@.len() as u32] + Seq::new(
                2 * i as nat,
                |j: int|
                    if j % 2 == 0 {
                        fs@[j / 2].hash
                    } else {
                        fs@[j / 2].value
                    },
            ),
        decreases fs@.len() - i,
    {
        out.push(fs[i].hash);
        out.push(fs[i].value);
        i = i + 1;
        assert(out@ =~= old(out)@ + seq![id, fs@.len() as u32] + Seq::new(
            2 * i as nat,
            |j: int|
                if j % 2 == 0 {
                    fs@[j / 2].hash
                } else {
                    fs@[j / 2].value
                },
        ));
    }
    assert(out@ =~= old(out)@ + segment_words(id, fs@));
}

/// Lays out a parsed frame into `out`, which is cleared first and reused: the
/// label, the importance weight, then for every namespace id, in order, its id,
/// its feature count and its features, also where it has none.
pub fn write_frame(out: &mut Vec<u32>, label: u32, importance: u32, segs: &Vec<Vec<Feature>>)
    requires
        segs@.len() <= u32::MAX + 1,
        forall|i: int| 0 <= i < segs@.len() ==> #[trigger] segs@[i]@.len() <= u32::MAX,
    ensures
        final(out)@ == frame_words(label, importance, segs@.map_values(|s: Vec<Feature>| s@)),
{
    let ghost views = segs@.map_values(|s: Vec<Feature>| s@);
    out.clear();
    out.push(label);
    out.push(importance);
    let mut i: usize = 0;
    while i < segs.len()
        invariant
            i <= segs@.len(),
            segs@.len() <= u32::MAX + 1,
            forall|k: int| 0 <= k < segs@.len() ==> #[trigger] segs@[k]@.len() <= u32::MAX,
            views == segs@.map_values(|s: Vec<Feature>| s@),
            out@ == frame_words(label, importance, views.take(i as int)),
        decreases segs@.len() - i,
    {
        push_segment(out, i as u32, segs[i].as_slice());
        proof {
            assert(views.take(i + 1).drop_last() =~= views.take(i as int));
        }
        i = i + 1;
        assert(out@ =~= frame_words(label, importance, views.take(i as int)));
    }
    assert(views.take(i as int) =~= views);
}

/// The words form a parsed frame of some label, importance weight and features.
pub open spec fn is_frame(f: Seq<u32>) -> bool {
    exists|label: u32, importance: u32, segs: Seq<Seq<Feature>>|
        segments_fit(segs) && f == #[trigger] frame_words(label, importance, segs)
}

/// Word `k` of the sub-segment of namespace `j` stands at its offset plus `k`;
/// the sub-segment ends within the frame.
proof fn lemma_segment_words_at(label: u32, importance: u32, segs: Seq<Seq<Feature>>, j: int)
    requires
        0 <= j < segs.len(),
    ensures
        segment_offset(segs, j) + 2 + 2 * segs[j].len() == segment_offset(segs, j + 1),
        segment_offset(segs, j + 1) <= frame_words(label, importance, segs).len(),
        forall|k: int| 0 <= k < 2 + 2 * segs[j].len() ==> #[trigger] frame_words(label, importance, segs)[segment_offset(segs, j) + k]
            == segment_words(j as u32, segs[j])[k],
{
    lemma_segments_prefix(segs, j + 1);
    let a = segments_words(segs.take(j));
    let b = segments_words(segs.take(j + 1));
    assert(segs.take(j + 1).drop_last() =~= segs.take(j));
    assert(segs.take(j + 1).last() == segs[j]);
    assert(b == a + segment_words(j as u32, segs[j]));
    let whole = segments_words(segs);
    assert forall|k: int| 0 <= k < 2 + 2 * segs[j].len() implies #[trigger] frame_words(label, importance, segs)[segment_offset(segs, j) + k]
        == segment_words(j as u32, segs[j])[k] by {
        assert(frame_words(label, importance, segs)[2 + a.len() + k] == whole[a.len() + k]);
        assert(whole[a.len() + k] == whole.take(b.len() as int)[a.len() + k]);
        assert(b[a.len() + k] == segment_words(j as u32, segs[j])[k]);
    }
}

/// The offsets of the sub-segments never decrease, and the last ends the frame.
proof fn lemma_offset_before_end(segs: Seq<Seq<Feature>>, j: int)
    requires
        0 <= j <= segs.len(),
    ensures
        segment_offset(segs, j) <= segment_offset(segs, segs.len() as int),
        j < segs.len() ==> segment_offset(segs, j) < segment_offset(segs, segs.len() as int),
    decreases segs.len() - j,
{
    if j < segs.len() {
        lemma_offset_before_end(segs, j + 1);
        lemma_segment_words_at(0, 0, segs, j);
    }
}

/// What reading the sub-segment of namespace `j` of a frame finds there: its id,
/// its count, and its features, all within the frame.
proof fn lemma_frame_segment(f: Seq<u32>, label: u32, importance: u32, d: Seq<Seq<Feature>>, j: int)
    requires
        segments_fit(d),
        0 <= j < d.len(),
        f == frame_words(label, importance, d),
    ensures
        j <= u32::MAX,
        f[segment_offset(d, j)] == j as u32,
        f[segment_offset(d, j) + 1] as int == d[j].len(),
        segment_offset(d, j) + 2 + 2 * d[j].len() == segment_offset(d, j + 1),
        segment_offset(d, j + 1) <= f.len(),
        forall|m: int| 0 <= m < d[j].len() ==> f[segment_offset(d, j) + 2 + 2 * m] == (#[trigger] d[j][m]).hash
            && f[segment_offset(d, j) + 3 + 2 * m] == d[j][m].value,
{
    lemma_one_segment_per_namespace(label, importance, d, j);
    lemma_segment_words_at(label, importance, d, j);
    assert(d[j].len() <= u32::MAX);
    let o = segment_offset(d, j);
    assert forall|m: int| 0 <= m < d[j].len() implies f[o + 2 + 2 * m] == (#[trigger] d[j][m]).hash
        && f[o + 3 + 2 * m] == d[j][m].value by {
        assert(f[o + (2 + 2 * m)] == segment_words(j as u32, d[j])[2 + 2 * m]);
        assert(f[o + (3 + 2 * m)] == segment_words(j as u32, d[j])[3 + 2 * m]);
        assert((2 * m) / 2 == m && (2 * m) % 2 == 0);
        assert((2 * m + 1) / 2 == m && (2 * m + 1) % 2 == 1);
    }
}

/// Reads a parsed frame back into its label, importance weight and the features
/// of each namespace id; none where the words are not such a frame (ids out of
/// order, or counts that overrun the frame).
pub fn read_frame(frame: &[u32]) -> (r: Option<(u32, u32, Vec<Vec<Feature>>)>)
    ensures
        r is Some ==> frame@ == frame_words(r->Some_0.0, r->Some_0.1, r->Some_0.2@.map_values(|s: Vec<Feature>| s@)),
        is_frame(frame@) ==> r is Some,
{
    let ghost d: Seq<Seq<Feature>> = Seq::empty();
    let ghost framed = is_frame(frame@);
    proof {
        if framed {
            let (l0, i0, s0) = choose|label: u32, importance: u32, segs: Seq<Seq<Feature>>|
                segments_fit(segs) && frame@ == #[trigger] frame_words(label, importance, segs);
            d = s0;
            assert(frame@ == frame_words(l0, i0, d));
            assert(d.take(0) =~= Seq::<Seq<Feature>>::empty());
            assert(d.take(d.len() as int) =~= d);
            lemma_offset_before_end(d, 0);
        }
    }
    let len = frame.len();
    if len < 2 {
        return None;
    }
    let label = frame[0];
    let importance = frame[1];
    let mut segs: Vec<Vec<Feature>> = Vec::new();
    let mut pos: usize = 2;
    while pos < len
        invariant
            len == frame@.len(),
            2 <= pos <= len,
            segs@.len() <= pos,
            frame@.take(pos as int) == frame_words(label, importance, segs@.map_values(|s: Vec<Feature>| s@)),
            framed == is_frame(frame@),
            framed ==> segments_fit(d) && frame@ == frame_words(label, importance, d),
            framed ==> segs@.len() <= d.len() && segs@.map_values(|s: Vec<Feature>| s@) == d.take(segs@.len() as int),
            framed ==> pos == segment_offset(d, segs@.len() as int),
            framed ==> segment_offset(d, d.len() as int) == len,
        decreases len - pos,
    {
        let ghost sj = segs@.len() as int;
        proof {
            if framed {
                lemma_offset_before_end(d, sj);
                lemma_frame_segment(frame@, label, importance, d, sj);
            }
        }
        if len - pos < 2 || frame[pos] as usize != segs.len() {
            return None;
        }
        let count = frame[pos + 1] as usize;
        if (len - pos - 2) / 2 < count {
            return None;
        }
        let ghost views = segs@.map_values(|s: Vec<Feature>| s@);
        let mut fs: Vec<Feature> = Vec::new();
        let mut j: usize = 0;
        while j < count
            invariant
                len == frame@.len(),
                pos + 2 + 2 * count <= len,
                j <= count,
                fs@.len() == j,
                forall|m: int| 0 <= m < j ==> #[trigger] fs@[m] == (Feature {
                    hash: frame@[pos + 2 + 2 * m],
                    value: frame@[pos + 3 + 2 * m],
                }),
            decreases count - j,
        {
            fs.push(Feature { hash: frame[pos + 2 + 2 * j], value: frame[pos + 3 + 2 * j] });
            j = j + 1;
        }
        let ghost fv = fs@;
        proof {
            if framed {
                assert forall|m: int| 0 <= m < count implies #[trigger] fv[m] == d[sj][m] by {
                    assert(d[sj][m].hash == frame@[pos + 2 + 2 * m]);
                }
                assert(fv =~= d[sj]);
            }
        }
        let id = segs.len() as u32;
        let new_pos = pos + 2 + 2 * count;
        assert(frame@.subrange(pos as int, new_pos as int) =~= segment_words(id, fv)) by {
            assert forall|q: int| 0 <= q < 2 * count implies #[trigger] segment_words(id, fv)[2 + q]
                == frame@[pos + 2 + q] by {
                assert(q % 2 == 0 ==> q == 2 * (q / 2));
                assert(q % 2 == 1 ==> q == 2 * (q / 2) + 1);
            }
        }
        segs.push(fs);
        let ghost nv = segs@.map_values(|s: Vec<Feature>| s@);
        assert(nv.drop_last() =~= views);
        assert(nv.last() == fv);
        assert(frame@.take(new_pos as int) =~= frame@.take(pos as int) + frame@.subrange(pos as int, new_pos as int));
        proof {
            if framed {
                assert(d.take(sj + 1) =~= d.take(sj).push(d[sj]));
            }
        }
        pos = new_pos;
    }
    assert(frame@.take(pos as int) =~= frame@);
    proof {
        if framed {
            lemma_offset_before_end(d, segs@.len() as int);
        }
    }
    Some((label, importance, segs))
}

/// Every frame holds exactly one sub-segment for each namespace id: the one of
/// namespace `i` starts where that of `i - 1` ends, carries id `i` and the count
/// of its features, possibly zero; after the last one the frame ends.
pub proof fn lemma_one_segment_per_namespace(
    label: u32,
    importance: u32,
    segs: Seq<Seq<Feature>>,
    i: int,
)
    requires
        segments_fit(segs),
        0 <= i < segs.len(),
    ensures
        frame_words(label, importance, segs)[segment_offset(segs, i)] == i as u32,
        frame_words(label, importance, segs)[segment_offset(segs, i) + 1] == segs[i].len() as u32,
        segment_offset(segs, i + 1) == segment_offset(segs, i) + 2 + 2 * segs[i].len(),
        segment_offset(segs, segs.len() as int) == frame_words(label, importance, segs).len(),
        segment_offset(segs, 0) == 2,
{
    lemma_segments_prefix(segs, i + 1);
    let a = segments_words(segs.take(i));
    let b = segments_words(segs.take(i + 1));
    assert(segs.take(i + 1).drop_last() =~= segs.take(i));
    assert(segs.take(i + 1).last() == segs[i]);
    assert(b == a + segment_words(i as u32, segs[i]));
    let whole = segments_words(segs);
    assert(whole[a.len() as int] == b[a.len() as int]);
    assert(whole[a.len() as int + 1] == b[a.len() as int + 1]);
    assert(segs.take(segs.len() as int) =~= segs);
    assert(segs.take(0) =~= Seq::<Seq<Feature>>::empty());
}

proof fn lemma_segments_prefix(segs: Seq<Seq<Feature>>, j: int)
    requires
        0 <= j <= segs.len(),
    ensures
        segments_words(segs.take(j)).len() <= segments_words(segs).len(),
        segments_words(segs).take(segments_words(segs.take(j)).len() as int) == segments_words(
            segs.take(j),
        ),
    decreases segs.len() - j,
{
    if j == segs.len() {
        assert(segs.take(j) =~= segs);
        assert(segments_words(segs).take(segments_words(segs).len() as int) =~= segments_words(
            segs,
        ));
    } else {
        lemma_segments_prefix(segs, j + 1);
        assert(segs.take(j + 1).drop_last() =~= segs.take(j));
        let a = segments_words(segs.take(j));
        let b = segments_words(segs.take(j + 1));
        assert(segs.take(j + 1).last() == segs[j]);
        assert(b == a + segment_words(j as u32, segs[j]));
        assert(segments_words(segs).take(a.len() as int) =~= b.take(a.len() as int));
        assert(b.take(a.len() as int) =~= a);
    }
}

} // verus!
