use vstd::prelude::*;

verus! {

/// The ASCII space, which separates tokens of an input line.
pub const SPACE: u8 = 0x20;

/// The ASCII colon, which separates a feature from its value.
pub const COLON: u8 = 0x3A;

/// Splitting a prefix of some bytes at `sep`: the pieces completed so far and the
/// piece being read.
pub open spec fn split_state(sep: u8, s: Seq<u8>) -> (Seq<Seq<u8>>, Seq<u8>)
    decreases s.len(),
{
    if s.len() == 0 {
        (Seq::empty(), Seq::empty())
    } else {
        let (done, cur) = split_state(sep, s.drop_last());
        if s.last() == sep {
            if cur.len() > 0 {
                (done.push(cur), Seq::empty())
            } else {
                (done, Seq::empty())
            }
        } else {
            (done, cur.push(s.last()))
        }
    }
}

/// The maximal non-empty runs of bytes other than `sep`, in order.
pub open spec fn split_on(sep: u8, s: Seq<u8>) -> Seq<Seq<u8>> {
    let (done, cur) = split_state(sep, s);
    if cur.len() > 0 {
        done.push(cur)
    } else {
        done
    }
}

/// Splits bytes at every `sep`; runs of separators, and separators at either end,
/// yield no empty piece.
pub fn split_on_byte(sep: u8, line: &[u8]) -> (r: Vec<Vec<u8>>)
    ensures
        r@.map_values(|t: Vec<u8>| t@) == split_on(sep, line@),
{
    let mut done: Vec<Vec<u8>> = Vec::new();
    let mut cur: Vec<u8> = Vec::new();
    let mut i: usize = 0;
    while i < line.len()
        invariant
            i <= line@.len(),
            (done@.map_values(|t: Vec<u8>| t@), cur@) == split_state(sep, line@.take(i as int)),
        decreases line@.len() - i,
    {
        let c = line[i];
        assert(line@.take(i + 1).drop_last() =~= line@.take(i as int));
        assert(line@.take(i + 1).last() == c);
        if c == sep {
            if cur.len() > 0 {
                let ghost before = done@.map_values(|t: Vec<u8>| t@);
                let ghost cv = cur@;
                done.push(cur);
                cur = Vec::new();
                assert(done@.map_values(|t: Vec<u8>| t@) =~= before.push(cv));
            }
        } else {
            cur.push(c);
        }
        i = i + 1;
    }
    assert(line@.take(i as int) =~= line@);
    if cur.len() > 0 {
        let ghost before = done@.map_values(|t: Vec<u8>| t@);
        let ghost cv = cur@;
        done.push(cur);
        assert(done@.map_values(|t: Vec<u8>| t@) =~= before.push(cv));
    }
    done
}

/// Splits an input line into its space-separated tokens.
pub fn split_tokens(line: &[u8]) -> (r: Vec<Vec<u8>>)
    ensures
        r@.map_values(|t: Vec<u8>| t@) == split_on(SPACE, line@),
{
    split_on_byte(SPACE, line)
}

/// Splits a feature token at its first colon into the feature and its value;
/// without a colon the whole token is the feature and there is no value.
pub fn split_feature(token: &[u8]) -> (r: (Vec<u8>, Option<Vec<u8>>))
    ensures
        forall|j: int| 0 <= j < r.0@.len() ==> r.0@[j] != COLON,
        r.1 is None ==> r.0@ == token@,
        r.1 is Some ==> token@ == r.0@ + seq![COLON] + r.1->Some_0@,
{
    let mut k: usize = 0;
    while k < token.len() && token[k] != COLON
        invariant
            k <= token@.len(),
            forall|j: int| 0 <= j < k ==> token@[j] != COLON,
        decreases token@.len() - k,
    {
        k = k + 1;
    }
    let mut name: Vec<u8> = Vec::new();
    let mut i: usize = 0;
    while i < k
        invariant
            i <= k,
            k <= token@.len(),
            name@ == token@.take(i as int),
        decreases k - i,
    {
        name.push(token[i]);
        i = i + 1;
        assert(name@ =~= token@.take(i as int));
    }
    if k == token.len() {
        assert(token@.take(k as int) =~= token@);
        return (name, None);
    }
    let mut value: Vec<u8> = Vec::new();
    let mut j: usize = k + 1;
    while j < token.len()
        invariant
            k < token@.len(),
            k + 1 <= j <= token@.len(),
            value@ == token@.subrange(k + 1, j as int),
        decreases token@.len() - j,
    {
        value.push(token[j]);
        j = j + 1;
        assert(value@ =~= token@.subrange(k + 1, j as int));
    }
    assert(token@ =~= name@ + seq![COLON] + value@);
    (name, Some(value))
}

} // verus!
