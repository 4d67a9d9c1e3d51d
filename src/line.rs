use vstd::prelude::*;
use crate::namespaces::{max_id_bound, NamespaceMap};

verus! {

/// The ASCII vertical bar, which opens a namespace.
pub const PIPE: u8 = 0x7C;

/// Why an input line is refused.
#[derive(Clone, Copy, Debug, PartialEq, Eq, Structural)]
pub enum ParseError {
    /// A token stands where the grammar has none, or a namespace has no name.
    Malformed,
    /// A namespace whose first character is not declared.
    UnknownNamespace,
}

/// The tokens of one input line, sorted out: the label and importance weight
/// tokens if present, and for each namespace id the feature tokens given for it.
pub struct ParsedLine {
    pub label: Option<Vec<u8>>,
    pub weight: Option<Vec<u8>>,
    pub features: Vec<Vec<Vec<u8>>>,
}

/// A token that opens a namespace.
pub open spec fn opens_namespace(t: Seq<u8>) -> bool {
    t.len() > 0 && t[0] == PIPE
}

/// The id declared for `name`, if any.
pub open spec fn id_of(decls: Seq<(Seq<u8>, u32)>, name: Seq<u8>) -> Option<u32> {
    if exists|i: int| 0 <= i < decls.len() && #[trigger] decls[i].0 == name {
        Some(decls[choose|i: int| 0 <= i < decls.len() && #[trigger] decls[i].0 == name].1)
    } else {
        None
    }
}

/// A line's meaning over views: label, weight, the namespace being read, and the
/// feature tokens of each namespace id.
pub type LineState = (Option<Seq<u8>>, Option<Seq<u8>>, Option<u32>, Seq<Seq<Seq<u8>>>);

/// Reading token number `k`, `t`, in state `st`.
pub open spec fn line_step(
    decls: Seq<(Seq<u8>, u32)>,
    st: LineState,
    k: int,
    t: Seq<u8>,
) -> Result<LineState, ParseError> {
    let (label, weight, cur, table) = st;
    if opens_namespace(t) {
        if t.len() < 2 {
            Err(ParseError::Malformed)
        } else {
            match id_of(decls, seq![t[1]]) {
                Some(id) => Ok((label, weight, Some(id), table)),
                None => Err(ParseError::UnknownNamespace),
            }
        }
    } else if cur is Some {
        let id = cur->Some_0 as int;
        Ok((label, weight, cur, table.update(id, table[id].push(t))))
    } else if k == 0 {
        Ok((Some(t), weight, cur, table))
    } else if k == 1 && label is Some {
        Ok((label, Some(t), cur, table))
    } else {
        Err(ParseError::Malformed)
    }
}

/// Reading the tokens `toks` of a line, with a table of `n` namespace ids.
pub open spec fn line_of(decls: Seq<(Seq<u8>, u32)>, n: nat, toks: Seq<Seq<u8>>) -> Result<
    LineState,
    ParseError,
>
    decreases toks.len(),
{
    if toks.len() == 0 {
        Ok((None, None, None, Seq::new(n, |i: int| Seq::<Seq<u8>>::empty())))
    } else {
        match line_of(decls, n, toks.drop_last()) {
            Ok(st) => line_step(decls, st, toks.len() - 1, toks.last()),
            Err(e) => Err(e),
        }
    }
}

/// A line's label, weight and feature tokens of each namespace id, or why it is
/// refused.
pub open spec fn line_result(decls: Seq<(Seq<u8>, u32)>, toks: Seq<Seq<u8>>) -> Result<
    (Option<Seq<u8>>, Option<Seq<u8>>, Seq<Seq<Seq<u8>>>),
    ParseError,
> {
    match line_of(decls, max_id_bound(decls) as nat, toks) {
        Ok((label, weight, _cur, table)) => Ok((label, weight, table)),
        Err(e) => Err(e),
    }
}

/// Reading tokens keeps one table entry for each namespace id.
proof fn lemma_line_table_len(decls: Seq<(Seq<u8>, u32)>, n: nat, toks: Seq<Seq<u8>>)
    requires
        forall|i: int| 0 <= i < decls.len() ==> #[trigger] decls[i].1 < n,
    ensures
        line_of(decls, n, toks) is Ok ==> line_of(decls, n, toks)->Ok_0.3.len() == n,
        line_of(decls, n, toks) is Ok && line_of(decls, n, toks)->Ok_0.2 is Some
            ==> line_of(decls, n, toks)->Ok_0.2->Some_0 < n,
    decreases toks.len(),
{
    if toks.len() > 0 {
        lemma_line_table_len(decls, n, toks.drop_last());
        let t = toks.last();
        if opens_namespace(t) && t.len() >= 2 {
            let name = seq![t[1]];
            if exists|i: int| 0 <= i < decls.len() && #[trigger] decls[i].0 == name {
                let i = choose|i: int| 0 <= i < decls.len() && #[trigger] decls[i].0 == name;
                assert(decls[i].1 < n);
            }
        }
    }
}

/// Every line that is accepted has exactly one list of feature tokens for each
/// namespace id up to the largest declared, so each declared namespace has one,
/// possibly empty.
pub proof fn lemma_one_entry_per_namespace(decls: Seq<(Seq<u8>, u32)>, toks: Seq<Seq<u8>>)
    requires
        line_result(decls, toks) is Ok,
    ensures
        line_result(decls, toks)->Ok_0.2.len() == max_id_bound(decls),
        forall|i: int| 0 <= i < decls.len() ==> #[trigger] decls[i].1 < line_result(decls, toks)->Ok_0.2.len(),
{
    lemma_max_id_bound(decls);
    lemma_line_table_len(decls, max_id_bound(decls) as nat, toks);
}

/// Every declared id is below the bound, which is not negative.
proof fn lemma_max_id_bound(decls: Seq<(Seq<u8>, u32)>)
    ensures
        max_id_bound(decls) >= 0,
        forall|i: int| 0 <= i < decls.len() ==> #[trigger] decls[i].1 < max_id_bound(decls),
    decreases decls.len(),
{
    if decls.len() > 0 {
        lemma_max_id_bound(decls.drop_last());
        assert forall|i: int| 0 <= i < decls.len() implies #[trigger] decls[i].1 < max_id_bound(decls) by {
            if i < decls.len() - 1 {
                assert(decls.drop_last()[i] == decls[i]);
            }
        }
    }
}

/// Feature tokens of each namespace id, over views.
pub open spec fn table_view(t: Seq<Vec<Vec<u8>>>) -> Seq<Seq<Seq<u8>>> {
    t.map_values(|fs: Vec<Vec<u8>>| fs@.map_values(|f: Vec<u8>| f@))
}

/// An optional token over views.
pub open spec fn opt_bytes(o: Option<Vec<u8>>) -> Option<Seq<u8>> {
    match o {
        Some(v) => Some(v@),
        None => None,
    }
}

/// What a parse returns, over views.
pub open spec fn parsed_view(r: Result<ParsedLine, ParseError>) -> Result<
    (Option<Seq<u8>>, Option<Seq<u8>>, Seq<Seq<Seq<u8>>>),
    ParseError,
> {
    match r {
        Ok(p) => Ok((opt_bytes(p.label), opt_bytes(p.weight), table_view(p.features@))),
        Err(e) => Err(e),
    }
}

/// Once a prefix of the tokens is refused, so is the whole line, for the same reason.
proof fn lemma_line_err_stays(decls: Seq<(Seq<u8>, u32)>, n: nat, toks: Seq<Seq<u8>>, k: int)
    requires
        0 <= k <= toks.len(),
        line_of(decls, n, toks.take(k)) is Err,
    ensures
        line_of(decls, n, toks) == line_of(decls, n, toks.take(k)),
    decreases toks.len() - k,
{
    if k == toks.len() {
        assert(toks.take(k) =~= toks);
    } else {
        assert(toks.take(k + 1).drop_last() =~= toks.take(k));
        lemma_line_err_stays(decls, n, toks, k + 1);
    }
}

/// Where names are unique, the id found for a declared name is its own.
proof fn lemma_id_of(map: &NamespaceMap, name: Seq<u8>, id: u32)
    requires
        map.wf(),
        exists|i: int| 0 <= i < map.view().len() && #[trigger] map.view()[i] == (name, id),
    ensures
        id_of(map.view(), name) == Some(id),
{
    let d = map.view();
    let i = choose|i: int| 0 <= i < d.len() && #[trigger] d[i] == (name, id);
    assert(d[i].0 == name);
    let j = choose|j: int| 0 <= j < d.len() && #[trigger] d[j].0 == name;
    if i != j {
        if i < j {
            assert(d[i].0 != d[j].0);
        } else {
            assert(d[j].0 != d[i].0);
        }
    }
}

/// Sorts out the tokens of a line: an optional label, then an optional
/// importance weight, then namespaces, each a token `|` followed by its name and
/// then its feature tokens. A namespace is found by the first character of its
/// name; a namespace given twice gathers the features of both.
pub fn parse_tokens(toks: &Vec<Vec<u8>>, map: &NamespaceMap) -> (r: Result<ParsedLine, ParseError>)
    requires
        map.wf(),
    ensures
        parsed_view(r) == line_result(map.view(), toks@.map_values(|t: Vec<u8>| t@)),
{
    let bound = map.id_bound();
    let mut features: Vec<Vec<Vec<u8>>> = Vec::new();
    while (features.len() as u64) < bound
        invariant
            features@.len() <= bound,
            forall|i: int| 0 <= i < features@.len() ==> (#[trigger] features@[i])@.len() == 0,
        decreases bound - features@.len(),
    {
        features.push(Vec::new());
    }
    assert forall|i: int| 0 <= i < features@.len() implies #[trigger] table_view(features@)[i]
        == Seq::<Seq<u8>>::empty() by {
        assert(table_view(features@)[i] =~= Seq::<Seq<u8>>::empty());
    }
    assert(table_view(features@) =~= Seq::new(bound as nat, |i: int| Seq::<Seq<u8>>::empty()));
    let ghost tv = toks@.map_values(|t: Vec<u8>| t@);
    let mut label: Option<Vec<u8>> = None;
    let mut weight: Option<Vec<u8>> = None;
    let mut cur: Option<u32> = None;
    let mut k: usize = 0;
    while k < toks.len()
        invariant
            k <= toks@.len(),
            map.wf(),
            tv == toks@.map_values(|t: Vec<u8>| t@),
            bound == max_id_bound(map.view()),
            forall|i: int| 0 <= i < map.view().len() ==> #[trigger] map.view()[i].1 < bound,
            features@.len() == bound,
            cur is Some ==> cur->Some_0 < bound,
            line_of(map.view(), bound as nat, tv.take(k as int)) == Ok::<LineState, ParseError>(
                (opt_bytes(label), opt_bytes(weight), cur, table_view(features@)),
            ),
        decreases toks@.len() - k,
    {
        let t = &toks[k];
        assert(tv.take(k + 1).drop_last() =~= tv.take(k as int));
        assert(tv.take(k + 1).last() == t@);
        if t.len() > 0 && t[0] == PIPE {
            if t.len() < 2 {
                proof { lemma_line_err_stays(map.view(), bound as nat, tv, k as int + 1); }
                return Err(ParseError::Malformed);
            }
            let name = vec![t[1]];
            assert(name@ =~= seq![t@[1]]);
            match map.lookup(name.as_slice()) {
                Some(id) => {
                    proof {
                        lemma_id_of(map, name@, id);
                        let i = choose|i: int| 0 <= i < map.view().len() && #[trigger] map.view()[i] == (name@, id);
                        assert(map.view()[i].1 < bound);
                    }
                    cur = Some(id);
                },
                None => {
                    assert(id_of(map.view(), name@) is None);
                    proof { lemma_line_err_stays(map.view(), bound as nat, tv, k as int + 1); }
                    return Err(ParseError::UnknownNamespace);
                },
            }
        } else if cur.is_some() {
            let id = cur.unwrap() as usize;
            let ghost before = table_view(features@);
            let ghost old_features = features@;
            let mut fs = features.remove(id);
            assert(fs == old_features[id as int]);
            let c = t.clone();
            assert(c@ =~= t@);
            fs.push(c);
            assert(fs@.map_values(|f: Vec<u8>| f@) =~= before[id as int].push(t@));
            let ghost new_fs = fs;
            features.insert(id, fs);
            assert(features@ =~= old_features.update(id as int, new_fs));
            assert(table_view(features@) =~= before.update(id as int, before[id as int].push(t@)));
        } else if k == 0 {
            let c = t.clone();
            assert(c@ =~= t@);
            label = Some(c);
        } else if k == 1 && label.is_some() {
            let c = t.clone();
            assert(c@ =~= t@);
            weight = Some(c);
        } else {
            proof { lemma_line_err_stays(map.view(), bound as nat, tv, k as int + 1); }
            return Err(ParseError::Malformed);
        }
        k = k + 1;
    }
    assert(tv.take(k as int) =~= tv);
    assert(bound as nat == max_id_bound(map.view()) as nat);
    Ok(ParsedLine { label, weight, features })
}

} // verus!
