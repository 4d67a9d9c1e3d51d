use vstd::prelude::*;
use crate::frame::Feature;
use crate::quantization::exponent_field;

verus! {

/// How the weight arena is laid out: a linear region of `2^lr_bits` weights, then
/// an FFM region of `2^ffm_bits * k * num_fields` weights.
#[derive(Clone, Copy, Debug, PartialEq, Eq, Structural)]
pub struct ArenaLayout {
    pub lr_bits: u32,
    pub ffm_bits: u32,
    pub k: u32,
    pub num_fields: u32,
}

/// `2^b`.
pub open spec fn pow2(b: nat) -> nat
    decreases b,
{
    if b == 0 {
        1
    } else {
        2 * pow2((b - 1) as nat)
    }
}

impl ArenaLayout {
    /// The size of the linear region.
    pub open spec fn lr_size(&self) -> int {
        pow2(self.lr_bits as nat) as int
    }

    /// The length of one (field, key) block of the FFM region: `k` factors for
    /// each field.
    pub open spec fn block_len(&self) -> int {
        self.k as int * self.num_fields as int
    }

    /// The number of weights in the arena.
    pub open spec fn arena_len(&self) -> int {
        self.lr_size() + pow2(self.ffm_bits as nat) as int * self.block_len()
    }

    /// A layout whose widths are below 32 bits and whose arena length fits 64 bits.
    pub open spec fn wf(&self) -> bool {
        self.lr_bits < 32 && self.ffm_bits < 32 && self.arena_len() <= u64::MAX
    }
}

/// The linear index of a feature hash.
pub open spec fn linear_index(l: ArenaLayout, hash: u32) -> int {
    (hash as int) % l.lr_size()
}

/// Where the FFM block of a feature hash starts in the arena.
pub open spec fn ffm_base(l: ArenaLayout, hash: u32) -> int {
    l.lr_size() + ((hash as int) % pow2(l.ffm_bits as nat) as int) * l.block_len()
}

/// One FFM input: the arena index of the feature's block, its field and the bit
/// pattern of its value.
#[derive(Clone, Copy, Debug, PartialEq, Eq, Structural)]
pub struct FfmEntry {
    pub base: u64,
    pub field: u32,
    pub value: u32,
}

/// One linear input: the arena index of the feature's weight and the bit pattern
/// of its value.
#[derive(Clone, Copy, Debug, PartialEq, Eq, Structural)]
pub struct LinearEntry {
    pub index: u64,
    pub value: u32,
}

/// The per-example input of the model: linear entries, and FFM entries in field order.
#[derive(Clone, Debug)]
pub struct FeatureBuffer {
    pub linear: Vec<LinearEntry>,
    pub ffm: Vec<FfmEntry>,
}

/// Features over views.
pub open spec fn segs_view(s: Seq<Vec<Feature>>) -> Seq<Seq<Feature>> {
    s.map_values(|v: Vec<Feature>| v@)
}

/// The features of one field, each with the field.
pub open spec fn tagged(field: u32, fs: Seq<Feature>) -> Seq<(u32, Feature)> {
    fs.map_values(|f: Feature| (field, f))
}

/// The features of all fields, flattened in field order, each with its field.
pub open spec fn flat_features(segs: Seq<Seq<Feature>>) -> Seq<(u32, Feature)>
    decreases segs.len(),
{
    if segs.len() == 0 {
        Seq::empty()
    } else {
        flat_features(segs.drop_last()) + tagged((segs.len() - 1) as u32, segs.last())
    }
}

proof fn lemma_pow2_pos(b: nat)
    ensures
        pow2(b) >= 1,
    decreases b,
{
    if b > 0 {
        lemma_pow2_pos((b - 1) as nat);
    }
}

/// Computes `2^b` for `b < 32`.
fn pow2_u64(b: u32) -> (r: u64)
    requires
        b < 32,
    ensures
        r as int == pow2(b as nat),
        r <= 0x8000_0000u64,
{
    let mut r: u64 = 1;
    let mut i: u32 = 0;
    assert(1u64 <= 0x8000_0000u64 >> 31u64) by (bit_vector);
    while i < b
        invariant
            i <= b < 32,
            r as int == pow2(i as nat),
            r <= pow2(i as nat),
            r <= 0x8000_0000u64 >> ((31 - i) as u64),
        decreases b - i,
    {
        assert(r * 2 <= 0x8000_0000u64 >> ((31 - (i + 1)) as u64)) by (bit_vector)
            requires
                r <= 0x8000_0000u64 >> ((31 - i) as u64),
                i < 31,
        ;
        r = r * 2;
        i = i + 1;
    }
    assert(0x8000_0000u64 >> ((31 - i) as u64) <= 0x8000_0000u64) by (bit_vector);
    r
}

impl ArenaLayout {
    /// A layout with the given widths and sizes, where it is well-formed.
    pub fn new(lr_bits: u32, ffm_bits: u32, k: u32, num_fields: u32) -> (r: Option<ArenaLayout>)
        ensures
            r is Some <==> (ArenaLayout { lr_bits, ffm_bits, k, num_fields }).wf(),
            r is Some ==> r->Some_0 == (ArenaLayout { lr_bits, ffm_bits, k, num_fields }),
    {
        let l = ArenaLayout { lr_bits, ffm_bits, k, num_fields };
        if lr_bits >= 32 || ffm_bits >= 32 {
            return None;
        }
        match l.checked_arena_len() {
            Some(_) => Some(l),
            None => None,
        }
    }

    /// The number of weights in the arena, where it fits 64 bits.
    pub fn checked_arena_len(&self) -> (r: Option<u64>)
        requires
            self.lr_bits < 32,
            self.ffm_bits < 32,
        ensures
            r is Some <==> self.arena_len() <= u64::MAX,
            r is Some ==> r->Some_0 as int == self.arena_len(),
    {
        let lr = pow2_u64(self.lr_bits);
        let f = pow2_u64(self.ffm_bits);
        assert((self.k as u64) as int * (self.num_fields as u64) as int <= u64::MAX) by (nonlinear_arith)
            requires self.k <= u32::MAX, self.num_fields <= u32::MAX;
        let block: u64 = self.k as u64 * self.num_fields as u64;
        match f.checked_mul(block) {
            Some(region) => {
                match lr.checked_add(region) {
                    Some(total) => Some(total),
                    None => None,
                }
            },
            None => None,
        }
    }
}

/// Turns a frame's features into model inputs: each feature's hash, reduced to
/// the linear width, indexes its linear weight; reduced to the FFM width, it picks
/// the FFM block that the feature's field reads. Values pass through unchanged.
pub fn translate(l: ArenaLayout, segs: &Vec<Vec<Feature>>) -> (fb: FeatureBuffer)
    requires
        l.wf(),
        segs@.len() <= l.num_fields,
    ensures
        fb.linear@.len() == flat_features(segs_view(segs@)).len(),
        fb.ffm@.len() == fb.linear@.len(),
        forall|i: int| 0 <= i < fb.linear@.len() ==> {
            let (field, f) = #[trigger] flat_features(segs_view(segs@))[i];
            &&& fb.linear@[i] == LinearEntry { index: linear_index(l, f.hash) as u64, value: f.value }
            &&& fb.ffm@[i] == FfmEntry { base: ffm_base(l, f.hash) as u64, field, value: f.value }
        },
        forall|i: int| 0 <= i < fb.linear@.len() ==> (#[trigger] fb.linear@[i]).index < l.arena_len(),
        forall|i: int| 0 <= i < fb.ffm@.len() ==> (#[trigger] fb.ffm@[i]).base + l.block_len() <= l.arena_len(),
        (forall|i: int| 0 <= i < flat_features(segs_view(segs@)).len() ==> exponent_field(
            (#[trigger] flat_features(segs_view(segs@))[i]).1.value,
        ) != 0xFFu32) ==> forall|i: int| 0 <= i < fb.linear@.len() ==> exponent_field(
            (#[trigger] fb.linear@[i]).value,
        ) != 0xFFu32 && exponent_field(fb.ffm@[i].value) != 0xFFu32,
{
    let ghost sv = segs_view(segs@);
    let lr_size = pow2_u64(l.lr_bits);
    let ffm_size = pow2_u64(l.ffm_bits);
    proof {
        lemma_pow2_pos(l.lr_bits as nat);
        lemma_pow2_pos(l.ffm_bits as nat);
        assert(l.block_len() >= 0) by (nonlinear_arith)
            requires l.block_len() == l.k as int * l.num_fields as int;
        assert(ffm_size as int * l.block_len() >= 0) by (nonlinear_arith)
            requires l.block_len() >= 0, ffm_size >= 1;
    }
    assert((l.k as u64) as int * (l.num_fields as u64) as int <= u64::MAX) by (nonlinear_arith)
        requires l.k <= u32::MAX, l.num_fields <= u32::MAX;
    let block: u64 = l.k as u64 * l.num_fields as u64;
    let mut linear: Vec<LinearEntry> = Vec::new();
    let mut ffm: Vec<FfmEntry> = Vec::new();
    let mut s: usize = 0;
    while s < segs.len()
        invariant
            s <= segs@.len() <= l.num_fields,
            l.wf(),
            sv == segs_view(segs@),
            lr_size as int == l.lr_size(),
            ffm_size as int == pow2(l.ffm_bits as nat),
            lr_size >= 1, ffm_size >= 1,
            block as int == l.block_len(),
            l.arena_len() == lr_size as int + ffm_size as int * block as int,
            linear@.len() == flat_features(sv.take(s as int)).len(),
            ffm@.len() == linear@.len(),
            forall|i: int| 0 <= i < linear@.len() ==> {
                let (field, f) = #[trigger] flat_features(sv.take(s as int))[i];
                &&& linear@[i] == LinearEntry { index: linear_index(l, f.hash) as u64, value: f.value }
                &&& ffm@[i] == FfmEntry { base: ffm_base(l, f.hash) as u64, field, value: f.value }
            },
        decreases segs@.len() - s,
    {
        let fs = &segs[s];
        let ghost prev = flat_features(sv.take(s as int));
        assert(sv.take(s + 1).drop_last() =~= sv.take(s as int));
        assert(sv.take(s + 1).last() == fs@);
        let mut j: usize = 0;
        while j < fs.len()
            invariant
                j <= fs@.len(),
                s < segs@.len() <= l.num_fields,
                l.wf(),
                lr_size as int == l.lr_size(),
                ffm_size as int == pow2(l.ffm_bits as nat),
                lr_size >= 1, ffm_size >= 1,
                block as int == l.block_len(),
                l.arena_len() == lr_size as int + ffm_size as int * block as int,
                linear@.len() == prev.len() + j,
                ffm@.len() == linear@.len(),
                forall|i: int| 0 <= i < linear@.len() ==> {
                    let (field, f) = #[trigger] (prev + tagged(s as u32, fs@.take(j as int)))[i];
                    &&& linear@[i] == LinearEntry { index: linear_index(l, f.hash) as u64, value: f.value }
                    &&& ffm@[i] == FfmEntry { base: ffm_base(l, f.hash) as u64, field, value: f.value }
                },
            decreases fs@.len() - j,
        {
            let f = fs[j];
            let li = f.hash as u64 % lr_size;
            let slot = f.hash as u64 % ffm_size;
            proof {
                assert(slot < ffm_size);
                assert(slot as int * block as int <= (ffm_size as int - 1) * block as int) by (nonlinear_arith)
                    requires slot < ffm_size, block >= 0;
                assert((ffm_size as int - 1) * block as int == ffm_size as int * block as int - block as int) by (nonlinear_arith);
            }
            let base = lr_size + slot * block;
            let ghost old_seq = prev + tagged(s as u32, fs@.take(j as int));
            linear.push(LinearEntry { index: li, value: f.value });
            ffm.push(FfmEntry { base, field: s as u32, value: f.value });
            j = j + 1;
            assert(prev + tagged(s as u32, fs@.take(j as int)) =~= old_seq.push((s as u32, f)));
        }
        assert(fs@.take(j as int) =~= fs@);
        assert(flat_features(sv.take(s + 1)) == prev + tagged(s as u32, fs@));
        s = s + 1;
    }
    assert(sv.take(s as int) =~= sv);
    proof {
        assert forall|i: int| 0 <= i < linear@.len() implies (#[trigger] linear@[i]).index < l.arena_len() by {
            let (field, f) = flat_features(sv)[i];
            assert(linear_index(l, f.hash) < l.lr_size());
        }
        assert forall|i: int| 0 <= i < ffm@.len() implies (#[trigger] ffm@[i]).base + l.block_len() <= l.arena_len() by {
            let (field, f) = flat_features(sv)[i];
            let slot = (f.hash as int) % pow2(l.ffm_bits as nat) as int;
            assert(slot * l.block_len() <= (ffm_size as int - 1) * l.block_len()) by (nonlinear_arith)
                requires slot < ffm_size, 0 <= slot, l.block_len() >= 0;
            assert((ffm_size as int - 1) * l.block_len() == ffm_size as int * l.block_len() - l.block_len()) by (nonlinear_arith);
        }
    }
    proof {
        if forall|i: int| 0 <= i < flat_features(sv).len() ==> exponent_field(
            (#[trigger] flat_features(sv)[i]).1.value,
        ) != 0xFFu32 {
            assert forall|i: int| 0 <= i < linear@.len() implies exponent_field(
                (#[trigger] linear@[i]).value,
            ) != 0xFFu32 && exponent_field(ffm@[i].value) != 0xFFu32 by {
                let (field, f) = flat_features(sv)[i];
                assert(exponent_field(flat_features(sv)[i].1.value) != 0xFFu32);
            }
        }
    }
    FeatureBuffer { linear, ffm }
}

} // verus!
