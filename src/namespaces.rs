use vstd::prelude::*;
use crate::tokens::{split_on, split_on_byte};

verus! {

/// Why a namespace declaration is refused.
#[derive(Clone, Copy, Debug, PartialEq, Eq, Structural)]
pub enum NamespaceError {
    /// A line is not `name,id` with a non-empty name and a decimal id.
    Malformed,
    /// Two declarations give the same id.
    DuplicateId,
    /// Two declarations give the same name.
    DuplicateName,
}

/// Whether `s` is a non-empty run of decimal digits.
pub open spec fn all_digits(s: Seq<u8>) -> bool {
    s.len() > 0 && forall|i: int| 0 <= i < s.len() ==> 0x30 <= #[trigger] s[i] <= 0x39
}

/// The number written in decimal by the digits `s`.
pub open spec fn decimal_value(s: Seq<u8>) -> int
    decreases s.len(),
{
    if s.len() == 0 {
        0
    } else {
        decimal_value(s.drop_last()) * 10 + (s.last() - 0x30)
    }
}

/// Reads a decimal number that fits 32 bits.
pub fn parse_decimal_u32(s: &[u8]) -> (r: Option<u32>)
    ensures
        r is Some <==> all_digits(s@) && decimal_value(s@) <= u32::MAX,
        r is Some ==> r->Some_0 as int == decimal_value(s@),
{
    if s.len() == 0 {
        return None;
    }
    let mut v: u64 = 0;
    let mut i: usize = 0;
    while i < s.len()
        invariant
            i <= s@.len(),
            s@.len() > 0,
            v as int == decimal_value(s@.take(i as int)),
            v <= u32::MAX,
            forall|j: int| 0 <= j < i ==> 0x30 <= #[trigger] s@[j] <= 0x39,
        decreases s@.len() - i,
    {
        let c = s[i];
        assert(s@.take(i + 1).drop_last() =~= s@.take(i as int));
        if c < 0x30 || c > 0x39 {
            assert(!(0x30 <= s@[i as int] <= 0x39));
            return None;
        }
        let nv = v * 10 + (c - 0x30) as u64;
        if nv > 0xFFFF_FFFFu64 {
            proof {
                lemma_decimal_grows(s@, i as int + 1);
            }
            return None;
        }
        v = nv;
        i = i + 1;
    }
    assert(s@.take(i as int) =~= s@);
    Some(v as u32)
}

/// A longer run of digits never reads as a smaller number.
proof fn lemma_decimal_grows(s: Seq<u8>, k: int)
    requires
        0 <= k <= s.len(),
        forall|j: int| 0 <= j < k ==> 0x30 <= #[trigger] s[j] <= 0x39,
    ensures
        all_digits(s) ==> decimal_value(s.take(k)) <= decimal_value(s),
    decreases s.len() - k,
{
    if k < s.len() && all_digits(s) {
        lemma_decimal_grows(s, k + 1);
        assert(s.take(k + 1).drop_last() =~= s.take(k));
        assert(decimal_value(s.take(k)) >= 0) by {
            assert forall|j: int| 0 <= j < s.take(k).len() implies 0x30 <= #[trigger] s.take(k)[j] by {
                assert(s.take(k)[j] == s[j]);
            }
            lemma_decimal_nonneg(s.take(k));
        }
        assert(s.take(k + 1)[k] == s[k]);
        assert(0x30 <= s[k]);
    } else if k == s.len() {
        assert(s.take(k) =~= s);
    }
}

proof fn lemma_decimal_nonneg(s: Seq<u8>)
    requires
        forall|j: int| 0 <= j < s.len() ==> 0x30 <= #[trigger] s[j],
    ensures
        decimal_value(s) >= 0,
    decreases s.len(),
{
    if s.len() > 0 {
        assert(s[s.len() - 1] >= 0x30);
        assert forall|j: int| 0 <= j < s.drop_last().len() implies 0x30 <= #[trigger] s.drop_last()[j] by {
            assert(s.drop_last()[j] == s[j]);
        }
        lemma_decimal_nonneg(s.drop_last());
    }
}

/// The namespaces a model sees: each name with its numeric id.
pub struct NamespaceMap {
    entries: Vec<(Vec<u8>, u32)>,
}

/// The declarations, name and id, in the order they were added.
pub open spec fn entries_view(e: Seq<(Vec<u8>, u32)>) -> Seq<(Seq<u8>, u32)> {
    e.map_values(|p: (Vec<u8>, u32)| (p.0@, p.1))
}

impl NamespaceMap {
    /// The declarations, name and id, in the order they were added.
    pub closed spec fn view(&self) -> Seq<(Seq<u8>, u32)> {
        entries_view(self.entries@)
    }

    /// No two declarations share a name or an id.
    pub open spec fn wf(&self) -> bool {
        forall|i: int, j: int|
            0 <= i < j < self.view().len() ==> #[trigger] self.view()[i].0 != #[trigger] self.view()[j].0
                && self.view()[i].1 != self.view()[j].1
    }

    /// Neither the name nor the id is declared.
    pub open spec fn is_fresh(&self, name: Seq<u8>, id: u32) -> bool {
        fresh_in(self.view(), name, id)
    }

    /// Reads a namespace declaration file: one `name,id` per line, empty lines
    /// skipped; a first line that is not of that form is a header and skipped.
    /// Refused at the first other line not of that form, or that declares a name
    /// or an id a second time.
    pub fn from_csv(text: &[u8]) -> (r: Result<NamespaceMap, NamespaceError>)
        ensures
            match r {
                Ok(m) => m.wf() && declarations_of(split_on(NEWLINE, text@)) == Ok::<
                    Seq<(Seq<u8>, u32)>,
                    NamespaceError,
                >(m.view()),
                Err(e) => declarations_of(split_on(NEWLINE, text@)) == Err::<
                    Seq<(Seq<u8>, u32)>,
                    NamespaceError,
                >(e),
            },
    {
        let lines = split_on_byte(NEWLINE, text);
        let ghost lv = lines@.map_values(|t: Vec<u8>| t@);
        assert(lv =~= split_on(NEWLINE, text@));
        let mut m = NamespaceMap::new();
        let mut k: usize = 0;
        while k < lines.len()
            invariant
                k <= lines@.len(),
                lv == lines@.map_values(|t: Vec<u8>| t@),
                lv == split_on(NEWLINE, text@),
                m.wf(),
                declarations_of(lv.take(k as int)) == Ok::<Seq<(Seq<u8>, u32)>, NamespaceError>(
                    m.view(),
                ),
            decreases lines@.len() - k,
        {
            assert(lv.take(k + 1).drop_last() =~= lv.take(k as int));
            assert(lv.take(k + 1).last() == lines@[k as int]@);
            let ghost before = m.view();
            match m.add_csv_line(lines[k].as_slice()) {
                Ok(()) => {},
                Err(NamespaceError::Malformed) => {
                    if k != 0 {
                        proof {
                            assert(csv_line_fields(lv.take(k + 1).last()) is None);
                            assert(declarations_of(lv.take(k + 1)) == Err::<Seq<(Seq<u8>, u32)>, NamespaceError>(NamespaceError::Malformed));
                            lemma_declarations_err_stays(lv, k as int + 1);
                        }
                        return Err(NamespaceError::Malformed);
                    }
                },
                Err(e) => {
                    proof {
                        assert(csv_line_fields(lv.take(k + 1).last()) is Some);
                        assert(declarations_of(lv.take(k + 1)) == Err::<Seq<(Seq<u8>, u32)>, NamespaceError>(e));
                        lemma_declarations_err_stays(lv, k as int + 1);
                    }
                    return Err(e);
                },
            }
            k = k + 1;
        }
        assert(lv.take(k as int) =~= lv);
        Ok(m)
    }

    /// A map with no namespace.
    pub fn new() -> (m: Self)
        ensures
            m.wf(),
            m.view() == Seq::<(Seq<u8>, u32)>::empty(),
    {
        let m = NamespaceMap { entries: Vec::new() };
        assert(m.view() =~= Seq::<(Seq<u8>, u32)>::empty());
        m
    }

    /// The id of the namespace called `name`, if declared.
    pub fn lookup(&self, name: &[u8]) -> (r: Option<u32>)
        requires
            self.wf(),
        ensures
            r is None <==> forall|i: int| 0 <= i < self.view().len() ==> #[trigger] self.view()[i].0 != name@,
            r is Some ==> exists|i: int|
                0 <= i < self.view().len() && #[trigger] self.view()[i] == (name@, r->Some_0),
    {
        let mut i: usize = 0;
        while i < self.entries.len()
            invariant
                i <= self.view().len(),
                self.view().len() == self.entries@.len(),
                forall|j: int| 0 <= j < i ==> #[trigger] self.view()[j].0 != name@,
            decreases self.entries@.len() - i,
        {
            assert(self.view()[i as int] == (self.entries@[i as int].0@, self.entries@[i as int].1));
            if bytes_equal(self.entries[i].0.as_slice(), name) {
                assert(self.view()[i as int].0 == name@);
                return Some(self.entries[i].1);
            }
            i = i + 1;
        }
        None
    }

    /// The name of the namespace with id `id`, if declared.
    pub fn name_of(&self, id: u32) -> (r: Option<Vec<u8>>)
        requires
            self.wf(),
        ensures
            r is None <==> forall|i: int| 0 <= i < self.view().len() ==> #[trigger] self.view()[i].1 != id,
            r is Some ==> exists|i: int|
                0 <= i < self.view().len() && #[trigger] self.view()[i] == (r->Some_0@, id),
    {
        let mut i: usize = 0;
        while i < self.entries.len()
            invariant
                i <= self.view().len(),
                self.view().len() == self.entries@.len(),
                forall|j: int| 0 <= j < i ==> #[trigger] self.view()[j].1 != id,
            decreases self.entries@.len() - i,
        {
            assert(self.view()[i as int] == (self.entries@[i as int].0@, self.entries@[i as int].1));
            if self.entries[i].1 == id {
                let r = self.entries[i].0.clone();
                assert(r@ == self.entries@[i as int].0@);
                assert(self.view()[i as int] == (r@, id));
                assert(self.view()[i as int].1 == id);
                return Some(r);
            }
            i = i + 1;
        }
        None
    }

    /// Declares namespace `name` with id `id`; refused, with the map unchanged,
    /// where the id or the name is declared already.
    pub fn insert(&mut self, name: Vec<u8>, id: u32) -> (r: Result<(), NamespaceError>)
        requires
            old(self).wf(),
        ensures
            final(self).wf(),
            (exists|i: int| 0 <= i < old(self).view().len() && #[trigger] old(self).view()[i].1 == id)
                ==> r == Err::<(), NamespaceError>(NamespaceError::DuplicateId),
            (forall|i: int| 0 <= i < old(self).view().len() ==> #[trigger] old(self).view()[i].1 != id)
                && (exists|i: int| 0 <= i < old(self).view().len() && #[trigger] old(self).view()[i].0 == name@)
                ==> r == Err::<(), NamespaceError>(NamespaceError::DuplicateName),
            r is Ok <==> old(self).is_fresh(name@, id),
            r == insert_result(old(self).view(), name@, id),
            r is Ok ==> final(self).view() == old(self).view().push((name@, id)),
            r is Err ==> final(self).view() == old(self).view(),
    {
        let by_id = self.name_of(id);
        if by_id.is_some() {
            proof {
                let i = choose|i: int| 0 <= i < self.view().len() && #[trigger] self.view()[i] == (
                    by_id->Some_0@,
                    id,
                );
                assert(self.view()[i].1 == id);
            }
            return Err(NamespaceError::DuplicateId);
        }
        let found = self.lookup(name.as_slice());
        if found.is_some() {
            proof {
                let i = choose|i: int| 0 <= i < self.view().len() && #[trigger] self.view()[i] == (
                    name@,
                    found->Some_0,
                );
                assert(self.view()[i].0 == name@ && self.view()[i].1 == found->Some_0);
            }
            return Err(NamespaceError::DuplicateName);
        }
        let ghost before = self.view();
        let ghost nv = name@;
        assert forall|i: int| 0 <= i < before.len() implies #[trigger] before[i].1 != id
            && before[i].0 != nv by {
            assert(self.view()[i].1 != id);
            assert(self.view()[i].0 != name@);
        }
        self.entries.push((name, id));
        assert(self.view() =~= before.push((nv, id)));
        Ok(())
    }

    /// The number of declared namespaces.
    pub fn len(&self) -> (n: usize)
        ensures
            n == self.view().len(),
    {
        self.entries.len()
    }

    /// One more than the largest declared id: the size of a table indexed by id.
    pub fn id_bound(&self) -> (n: u64)
        ensures
            n == max_id_bound(self.view()),
            forall|i: int| 0 <= i < self.view().len() ==> #[trigger] self.view()[i].1 < n,
    {
        let mut n: u64 = 0;
        let mut i: usize = 0;
        while i < self.entries.len()
            invariant
                i <= self.view().len(),
                self.view().len() == self.entries@.len(),
                n == max_id_bound(self.view().take(i as int)),
                forall|j: int| 0 <= j < i ==> #[trigger] self.view()[j].1 < n,
            decreases self.entries@.len() - i,
        {
            assert(self.view()[i as int] == (self.entries@[i as int].0@, self.entries@[i as int].1));
            assert(self.view().take(i + 1).drop_last() =~= self.view().take(i as int));
            let id = self.entries[i].1;
            if id as u64 + 1 > n {
                n = id as u64 + 1;
            }
            i = i + 1;
        }
        assert(self.view().take(i as int) =~= self.view());
        n
    }

    /// Reads one line `name,id` of a namespace declaration file and declares it.
    /// A trailing carriage return is ignored. Refused, with the map unchanged,
    /// where the line is not of that form or the name or id is declared already.
    pub fn add_csv_line(&mut self, line: &[u8]) -> (r: Result<(), NamespaceError>)
        requires
            old(self).wf(),
        ensures
            final(self).wf(),
            r == match csv_line_fields(line@) {
                None => Err(NamespaceError::Malformed),
                Some((name, id)) => insert_result(old(self).view(), name, id),
            },
            r is Ok ==> final(self).view() == old(self).view().push(csv_line_fields(line@)->Some_0),
            r is Err ==> final(self).view() == old(self).view(),
    {
        let mut end = line.len();
        if end > 0 && line[end - 1] == 0x0D {
            end = end - 1;
        }
        let mut k: usize = 0;
        while k < end && line[k] != 0x2C
            invariant
                end <= line@.len(),
                end == csv_content(line@).len(),
                k <= end,
                forall|j: int| 0 <= j < k ==> #[trigger] line@[j] != 0x2C,
            decreases end - k,
        {
            k = k + 1;
        }
        let ghost content = csv_content(line@);
        proof {
            assert forall|j: int| 0 <= j < k implies #[trigger] content[j] != 0x2C by {
                assert(content[j] == line@[j]);
            }
            if k < end {
                assert(content[k as int] == line@[k as int]);
            }
            lemma_first_comma(content, k as int);
        }
        if k == 0 || k == end {
            return Err(NamespaceError::Malformed);
        }
        let mut name: Vec<u8> = Vec::new();
        let mut i: usize = 0;
        while i < k
            invariant
                i <= k,
                k <= line@.len(),
                name@ == line@.take(i as int),
            decreases k - i,
        {
            name.push(line[i]);
            i = i + 1;
            assert(name@ =~= line@.take(i as int));
        }
        assert(content.subrange(k + 1, content.len() as int) =~= line@.subrange(k + 1, end as int));
        assert(content.take(k as int) =~= line@.take(k as int));
        let id = match parse_decimal_u32(slice_subrange(line, k + 1, end)) {
            Some(id) => id,
            None => {
                return Err(NamespaceError::Malformed);
            },
        };
        let ghost fields = (name@, id);
        assert(csv_line_fields(line@) == Some(fields));
        self.insert(name, id)
    }
}

/// The ASCII line feed, which ends a line of a declaration file.
pub const NEWLINE: u8 = 0x0A;

/// Neither `name` nor `id` occurs among the declarations.
pub open spec fn fresh_in(decls: Seq<(Seq<u8>, u32)>, name: Seq<u8>, id: u32) -> bool {
    forall|i: int| 0 <= i < decls.len() ==> #[trigger] decls[i].1 != id && decls[i].0 != name
}

/// What declaring `name` with `id` gives: refused where the id is declared,
/// else where the name is.
pub open spec fn insert_result(decls: Seq<(Seq<u8>, u32)>, name: Seq<u8>, id: u32) -> Result<
    (),
    NamespaceError,
> {
    if fresh_in(decls, name, id) {
        Ok(())
    } else if exists|i: int| 0 <= i < decls.len() && #[trigger] decls[i].1 == id {
        Err(NamespaceError::DuplicateId)
    } else {
        Err(NamespaceError::DuplicateName)
    }
}

/// The declarations that the non-empty lines of a declaration file make, or the
/// first reason to refuse them. A first line not of the form `name,id` is a header.
pub open spec fn declarations_of(lines: Seq<Seq<u8>>) -> Result<Seq<(Seq<u8>, u32)>, NamespaceError>
    decreases lines.len(),
{
    if lines.len() == 0 {
        Ok(Seq::empty())
    } else {
        match declarations_of(lines.drop_last()) {
            Err(e) => Err(e),
            Ok(d) => match csv_line_fields(lines.last()) {
                None => if lines.len() == 1 {
                    Ok(d)
                } else {
                    Err(NamespaceError::Malformed)
                },
                Some((name, id)) => match insert_result(d, name, id) {
                    Ok(()) => Ok(d.push((name, id))),
                    Err(e) => Err(e),
                },
            },
        }
    }
}

/// Once a prefix of the lines is refused, so is the whole file, for the same reason.
proof fn lemma_declarations_err_stays(lines: Seq<Seq<u8>>, k: int)
    requires
        0 <= k <= lines.len(),
        declarations_of(lines.take(k)) is Err,
    ensures
        declarations_of(lines) == declarations_of(lines.take(k)),
    decreases lines.len() - k,
{
    if k == lines.len() {
        assert(lines.take(k) =~= lines);
    } else {
        assert(lines.take(k + 1).drop_last() =~= lines.take(k));
        lemma_declarations_err_stays(lines, k + 1);
    }
}

/// One more than the largest id declared in `decls`, or zero where none is.
pub open spec fn max_id_bound(decls: Seq<(Seq<u8>, u32)>) -> int
    decreases decls.len(),
{
    if decls.len() == 0 {
        0
    } else if max_id_bound(decls.drop_last()) < decls.last().1 + 1 {
        decls.last().1 + 1
    } else {
        max_id_bound(decls.drop_last())
    }
}

/// Whether two byte strings are equal.
pub fn bytes_equal(a: &[u8], b: &[u8]) -> (r: bool)
    ensures
        r == (a@ == b@),
{
    if a.len() != b.len() {
        return false;
    }
    let mut i: usize = 0;
    while i < a.len()
        invariant
            i <= a@.len(),
            a@.len() == b@.len(),
            forall|j: int| 0 <= j < i ==> a@[j] == b@[j],
        decreases a@.len() - i,
    {
        if a[i] != b[i] {
            return false;
        }
        i = i + 1;
    }
    assert(a@ =~= b@);
    true
}

/// The bytes `s[start..end]`.
fn slice_subrange(s: &[u8], start: usize, end: usize) -> (r: &[u8])
    requires
        start <= end <= s@.len(),
    ensures
        r@ == s@.subrange(start as int, end as int),
{
    vstd::slice::slice_subrange(s, start, end)
}

/// A line without its trailing carriage return, if any.
pub open spec fn csv_content(line: Seq<u8>) -> Seq<u8> {
    if line.len() > 0 && line.last() == 0x0D {
        line.drop_last()
    } else {
        line
    }
}

/// The position of the first comma in `s`, or its length where it has none.
pub open spec fn first_comma(s: Seq<u8>) -> int
    decreases s.len(),
{
    if s.len() == 0 {
        0
    } else if s[0] == 0x2C {
        0
    } else {
        1 + first_comma(s.drop_first())
    }
}

proof fn lemma_first_comma(s: Seq<u8>, k: int)
    requires
        0 <= k <= s.len(),
        forall|j: int| 0 <= j < k ==> #[trigger] s[j] != 0x2C,
        k == s.len() || s[k] == 0x2C,
    ensures
        first_comma(s) == k,
    decreases k,
{
    if k > 0 {
        lemma_first_comma(s.drop_first(), k - 1);
    }
}

/// The name and id that a declaration line gives: the name before its first
/// comma (not empty), the id after it in decimal, fitting 32 bits.
pub open spec fn csv_line_fields(line: Seq<u8>) -> Option<(Seq<u8>, u32)> {
    let c = csv_content(line);
    let k = first_comma(c);
    let id = c.subrange(k + 1, c.len() as int);
    if k == 0 || k >= c.len() || !all_digits(id) || decimal_value(id) > u32::MAX {
        None
    } else {
        Some((c.take(k), decimal_value(id) as u32))
    }
}

} // verus!
