//! The layout index: one row per record, naming it and giving its layout.

use vstd::prelude::*;
use vstd::string::StrSliceExecFns;
use crate::layout::IndexRecord;

verus! {

/// csv's error type, carried opaquely until it is mapped to `IndexError`.
#[verifier::external_type_specification]
#[verifier::external_body]
pub struct ExCsvError(csv::Error);

/// Why an index could not be loaded.
#[derive(Clone, Copy, Debug, PartialEq, Eq, Structural)]
pub enum IndexError {
    /// The text could not be split into rows of fields.
    Unreadable,
    /// A row does not hold a name and four numbers describing a usable layout.
    MalformedRow,
    /// Two rows give the same name.
    DuplicateName,
}

/// The fields of each row of a tab-separated text without a header row, or
/// nothing where the text cannot be split so.
pub uninterp spec fn rows_of(text: Seq<u8>) -> Option<Seq<Seq<Seq<char>>>>;

pub open spec fn rows_view(rows: Seq<Vec<String>>) -> Seq<Seq<Seq<char>>> {
    Seq::new(rows.len(), |i: int| Seq::new(rows[i]@.len(), |j: int| rows[i]@[j]@))
}

/// Relies on csv's `ReaderBuilder` (tab delimiter, no header row) and its
/// `StringRecord`s: the fields of each row, as they stand in the text.
#[verifier::external_body]
fn split_rows(text: &[u8]) -> (r: Result<Vec<Vec<String>>, csv::Error>)
    ensures
        r is Ok <==> rows_of(text@) is Some,
        r matches Ok(rows) ==> rows_of(text@) == Some(rows_view(rows@)),
{
    csv::ReaderBuilder::new()
        .delimiter(b'\t')
        .has_headers(false)
        .from_reader(text)
        .into_records()
        .map(|row| row.map(|rec| rec.iter().map(|f| f.to_string()).collect()))
        .collect()
}

pub open spec fn is_digit(c: char) -> bool {
    '0' <= c <= '9'
}

/// Value of a string of decimal digits.
pub open spec fn digits_value(s: Seq<char>) -> nat
    decreases s.len(),
{
    if s.len() == 0 {
        0
    } else {
        digits_value(s.drop_last()) * 10 + (s.last() as nat - '0' as nat) as nat
    }
}

/// A field read as a non-negative decimal integer that fits in a `u64`.
pub open spec fn decimal_of(s: Seq<char>) -> Option<u64> {
    if 0 < s.len() && (forall|i: int| 0 <= i < s.len() ==> is_digit(#[trigger] s[i]))
        && digits_value(s) <= u64::MAX {
        Some(digits_value(s) as u64)
    } else {
        None
    }
}

/// Reads a field as a non-negative decimal integer.
pub fn parse_decimal(field: &str) -> (r: Option<u64>)
    ensures
        r == decimal_of(field@),
{
    let n = field.unicode_len();
    if n == 0 {
        return None;
    }
    let mut value: u64 = 0;
    let mut i: usize = 0;
    while i < n
        invariant
            n == field@.len(),
            i <= n,
            forall|j: int| 0 <= j < i ==> is_digit(#[trigger] field@[j]),
            value == digits_value(field@.subrange(0, i as int)),
        decreases n - i,
    {
        let c = field.get_char(i);
        assert(field@.subrange(0, i + 1).drop_last() =~= field@.subrange(0, i as int));
        if c < '0' || c > '9' {
            return None;
        }
        let d = (c as u32 - '0' as u32) as u64;
        assert(digits_value(field@.subrange(0, i + 1)) == value * 10 + d);
        assert(field@.subrange(0, n as int) =~= field@);
        match value.checked_mul(10) {
            None => {
                proof { lemma_digits_grow(field@, i as int + 1, n as int); }
                return None;
            },
            Some(v) => match v.checked_add(d) {
                None => {
                    proof { lemma_digits_grow(field@, i as int + 1, n as int); }
                    return None;
                },
                Some(w) => {
                    value = w;
                },
            },
        }
        i = i + 1;
    }
    assert(field@.subrange(0, n as int) =~= field@);
    Some(value)
}


/// The layout that a row describes: a name and four decimal numbers giving
/// a usable layout.
pub open spec fn row_record(row: Seq<Seq<char>>) -> Option<IndexRecord> {
    if row.len() == 5 && decimal_of(row[1]) is Some && decimal_of(row[2]) is Some
        && decimal_of(row[3]) is Some && decimal_of(row[4]) is Some {
        let rec = IndexRecord {
            len: decimal_of(row[1])->0,
            offset: decimal_of(row[2])->0,
            line_bases: decimal_of(row[3])->0,
            line_bytes: decimal_of(row[4])->0,
        };
        if rec.wf() { Some(rec) } else { None }
    } else {
        None
    }
}

pub open spec fn rows_well_formed(rows: Seq<Seq<Seq<char>>>) -> bool {
    forall|i: int| 0 <= i < rows.len() ==> (#[trigger] row_record(rows[i])) is Some
}

pub open spec fn names_distinct(names: Seq<Seq<char>>) -> bool {
    forall|i: int, j: int| 0 <= i < j < names.len() ==> names[i] != names[j]
}

/// A record's name and length, as listed by the index.
pub struct Sequence {
    pub name: String,
    pub len: u64,
}

/// Record layouts by name, in the order in which the index lists them.
pub struct Index {
    names: Vec<String>,
    records: Vec<IndexRecord>,
}

impl Index {
    pub closed spec fn names(&self) -> Seq<Seq<char>> {
        Seq::new(self.names@.len(), |i: int| self.names@[i]@)
    }

    pub closed spec fn records(&self) -> Seq<IndexRecord> {
        self.records@
    }

    /// Names are distinct, each has a layout, and every layout is usable.
    pub open spec fn wf(&self) -> bool {
        &&& self.names().len() == self.records().len()
        &&& names_distinct(self.names())
        &&& forall|i: int| 0 <= i < self.records().len() ==> (#[trigger] self.records()[i]).wf()
    }

    /// The layout of the record called `name`, if the index lists one.
    pub open spec fn lookup(&self, name: Seq<char>) -> Option<IndexRecord> {
        if exists|i: int| 0 <= i < self.names().len() && #[trigger] self.names()[i] == name {
            let i = choose|i: int| 0 <= i < self.names().len() && #[trigger] self.names()[i] == name;
            Some(self.records()[i])
        } else {
            None
        }
    }

    /// Loads an index from its text: rows of a name and four numbers (length,
    /// offset of the first base, bases per line, bytes per line), separated by
    /// tabs, each row ending in a line feed or a carriage return and line feed.
    pub fn new(fai: &[u8]) -> (r: Result<Index, IndexError>)
        ensures
            rows_of(fai@) is None ==> r == Err::<Index, IndexError>(IndexError::Unreadable),
            rows_of(fai@) matches Some(rows) ==> Index::loaded_from(r, rows),
    {
        match split_rows(fai) {
            Ok(rows) => Index::from_rows(&rows),
            Err(_) => Err(IndexError::Unreadable),
        }
    }

    /// What loading from these rows yields: the first malformed row is an
    /// error, then a repeated name; else the rows' names and layouts in order.
    pub open spec fn loaded_from(r: Result<Index, IndexError>, rows: Seq<Seq<Seq<char>>>) -> bool {
        &&& (r == Err::<Index, IndexError>(IndexError::MalformedRow) <==> !rows_well_formed(rows))
        &&& (r == Err::<Index, IndexError>(IndexError::DuplicateName) <==> rows_well_formed(rows)
            && !names_distinct(Seq::new(rows.len(), |i: int| rows[i][0])))
        &&& r != Err::<Index, IndexError>(IndexError::Unreadable)
        &&& r matches Ok(idx) ==> {
            &&& idx.wf()
            &&& idx.names() == Seq::new(rows.len(), |i: int| rows[i][0])
            &&& idx.records() == Seq::new(rows.len(), |i: int| row_record(rows[i])->0)
        }
    }

    /// Builds an index from rows of fields already split.
    pub fn from_rows(rows: &Vec<Vec<String>>) -> (r: Result<Index, IndexError>)
        ensures
            Index::loaded_from(r, rows_view(rows@)),
    {
        let ghost v = rows_view(rows@);
        let mut names: Vec<String> = Vec::new();
        let mut records: Vec<IndexRecord> = Vec::new();
        let mut i: usize = 0;
        while i < rows.len()
            invariant
                v == rows_view(rows@),
                i <= rows@.len(),
                names@.len() == i,
                records@.len() == i,
                forall|k: int| 0 <= k < i ==> (#[trigger] row_record(v[k])) is Some,
                forall|k: int| 0 <= k < i ==> names@[k]@ == #[trigger] v[k][0],
                forall|k: int| 0 <= k < i ==> records@[k] == #[trigger] row_record(v[k])->0,
            decreases rows@.len() - i,
        {
            let row = &rows[i];
            assert(v[i as int] == Seq::new(row@.len(), |j: int| row@[j]@));
            if row.len() != 5 {
                assert(row_record(v[i as int]) is None);
                return Err(IndexError::MalformedRow);
            }
            let len = parse_decimal(row[1].as_str());
            let offset = parse_decimal(row[2].as_str());
            let line_bases = parse_decimal(row[3].as_str());
            let line_bytes = parse_decimal(row[4].as_str());
            match (len, offset, line_bases, line_bytes) {
                (Some(len), Some(offset), Some(line_bases), Some(line_bytes)) => {
                    let rec = IndexRecord::new(len, offset, line_bases, line_bytes);
                    if !rec.is_valid() {
                        return Err(IndexError::MalformedRow);
                    }
                    names.push(row[0].clone());
                    records.push(rec);
                },
                _ => {
                    return Err(IndexError::MalformedRow);
                },
            }
            i = i + 1;
        }
        assert(rows_well_formed(v));
        let ghost all_names = Seq::new(v.len(), |k: int| v[k][0]);
        let mut a: usize = 0;
        while a < names.len()
            invariant
                all_names == Seq::new(v.len(), |k: int| v[k][0]),
                names@.len() == v.len(),
                a <= names@.len(),
                rows_well_formed(v),
                v == rows_view(rows@),
                forall|k: int| 0 <= k < names@.len() ==> names@[k]@ == #[trigger] all_names[k],
                forall|x: int, y: int| 0 <= x < y < a ==> all_names[x] != all_names[y],
            decreases names@.len() - a,
        {
            let mut b: usize = 0;
            while b < a
                invariant
                    all_names == Seq::new(v.len(), |k: int| v[k][0]),
                    names@.len() == v.len(),
                    b <= a < names@.len(),
                    rows_well_formed(v),
                    v == rows_view(rows@),
                    forall|k: int| 0 <= k < names@.len() ==> names@[k]@ == #[trigger] all_names[k],
                    forall|x: int| 0 <= x < b ==> all_names[x] != all_names[a as int],
                decreases a - b,
            {
                if names[b] == names[a] {
                    assert(all_names[b as int] == all_names[a as int]);
                    assert(!names_distinct(all_names));
                    return Err(IndexError::DuplicateName);
                }
                b = b + 1;
            }
            a = a + 1;
        }
        let idx = Index { names, records };
        assert(idx.names() =~= all_names);
        assert(idx.records() =~= Seq::new(v.len(), |k: int| row_record(v[k])->0));
        Ok(idx)
    }

    /// The layout of the record called `name`.
    pub fn get(&self, name: &str) -> (r: Option<IndexRecord>)
        requires
            self.wf(),
        ensures
            r == self.lookup(name@),
    {
        let key = name.to_owned();
        let mut i: usize = 0;
        while i < self.names.len()
            invariant
                self.wf(),
                key@ == name@,
                i <= self.names@.len(),
                forall|k: int| 0 <= k < i ==> self.names()[k] != name@,
            decreases self.names@.len() - i,
        {
            if self.names[i] == key {
                assert(self.names()[i as int] == name@);
                return Some(self.records[i]);
            }
            i = i + 1;
        }
        None
    }

    /// The records' names and lengths, in the order of the index.
    pub fn sequences(&self) -> (r: Vec<Sequence>)
        requires
            self.wf(),
        ensures
            r@.len() == self.names().len(),
            forall|i: int| 0 <= i < r@.len() ==> (#[trigger] r@[i]).name@ == self.names()[i]
                && r@[i].len == self.records()[i].len,
    {
        let mut out: Vec<Sequence> = Vec::new();
        let mut i: usize = 0;
        while i < self.names.len()
            invariant
                self.wf(),
                i <= self.names@.len(),
                out@.len() == i,
                forall|k: int| 0 <= k < i ==> (#[trigger] out@[k]).name@ == self.names()[k]
                    && out@[k].len == self.records()[k].len,
            decreases self.names@.len() - i,
        {
            out.push(Sequence { name: self.names[i].clone(), len: self.records[i].len });
            i = i + 1;
        }
        out
    }
}

/// A layout that the index gives for a name is usable.
pub proof fn lemma_lookup_wf(idx: Index, name: Seq<char>)
    requires
        idx.wf(),
        idx.lookup(name) is Some,
    ensures
        idx.lookup(name)->0.wf(),
{
    let i = choose|i: int| 0 <= i < idx.names().len() && #[trigger] idx.names()[i] == name;
    assert(idx.records()[i].wf());
}

/// A longer run of digits is worth at least as much as its prefix.
proof fn lemma_digits_grow(s: Seq<char>, k: int, n: int)
    requires
        0 <= k <= n <= s.len(),
    ensures
        digits_value(s.subrange(0, k)) <= digits_value(s.subrange(0, n)),
    decreases n - k,
{
    if k < n {
        lemma_digits_grow(s, k + 1, n);
        assert(s.subrange(0, k + 1).drop_last() =~= s.subrange(0, k));
    }
}

} // verus!
