//! Whole records of the sequence format, as a sequential reader yields them
//! and a writer emits them.

use vstd::prelude::*;
use vstd::slice::slice_subrange;
use vstd::string::StringSliceAdditionalSpecFns;

verus! {

pub open spec fn is_space(b: u8) -> bool {
    b == 0x20 || b == 0x09 || b == 0x0a || b == 0x0b || b == 0x0c || b == 0x0d
}

/// `s` without its trailing ASCII whitespace (space, tab, line feed,
/// vertical tab, form feed, carriage return); other Unicode whitespace stays.
pub open spec fn trim_end(s: Seq<u8>) -> Seq<u8>
    decreases s.len(),
{
    if s.len() > 0 && is_space(s.last()) {
        trim_end(s.drop_last())
    } else {
        s
    }
}

/// The header line without its leading marker byte and trailing whitespace.
pub open spec fn header_text(h: Seq<u8>) -> Seq<u8> {
    if h.len() == 0 { h } else { trim_end(h.subrange(1, h.len() as int)) }
}

/// What comes before the first whitespace byte.
pub open spec fn id_part(s: Seq<u8>) -> Seq<u8>
    decreases s.len(),
{
    if s.len() == 0 || is_space(s[0]) {
        Seq::empty()
    } else {
        seq![s[0]] + id_part(s.drop_first())
    }
}

/// What comes after the first whitespace byte, if there is one.
pub open spec fn desc_part(s: Seq<u8>) -> Option<Seq<u8>>
    decreases s.len(),
{
    if s.len() == 0 {
        None
    } else if is_space(s[0]) {
        Some(s.drop_first())
    } else {
        desc_part(s.drop_first())
    }
}

proof fn lemma_split_at_space(s: Seq<u8>, k: int)
    requires
        0 <= k <= s.len(),
        forall|j: int| 0 <= j < k ==> !is_space(s[j]),
        k == s.len() || is_space(s[k]),
    ensures
        id_part(s) == s.subrange(0, k),
        desc_part(s) == (if k == s.len() { None } else { Some(s.subrange(k + 1, s.len() as int)) }),
    decreases k,
{
    if k > 0 {
        lemma_split_at_space(s.drop_first(), k - 1);
        assert(s.subrange(0, k) =~= seq![s[0]] + s.drop_first().subrange(0, k - 1));
        if k < s.len() {
            assert(s.subrange(k + 1, s.len() as int) =~= s.drop_first().subrange(k, s.len() - 1));
        }
    } else {
        assert(s.subrange(0, 0) =~= Seq::<u8>::empty());
        if s.len() > 0 {
            assert(s.drop_first() =~= s.subrange(1, s.len() as int));
        }
    }
}

/// Length of `s` once its trailing whitespace is gone.
fn trimmed_len(s: &[u8]) -> (r: usize)
    ensures
        r <= s@.len(),
        trim_end(s@) == s@.subrange(0, r as int),
{
    let mut n = s.len();
    assert(s@ =~= s@.subrange(0, n as int));
    while n > 0 && (s[n - 1] == 0x20 || s[n - 1] == 0x09 || s[n - 1] == 0x0a
        || s[n - 1] == 0x0b || s[n - 1] == 0x0c || s[n - 1] == 0x0d)
        invariant
            n <= s@.len(),
            trim_end(s@) == trim_end(s@.subrange(0, n as int)),
        decreases n,
    {
        assert(s@.subrange(0, n as int).drop_last() =~= s@.subrange(0, n - 1));
        n = n - 1;
    }
    n
}

/// Index of the first whitespace byte in `s`, or its length.
fn first_space(s: &[u8]) -> (r: usize)
    ensures
        r <= s@.len(),
        forall|j: int| 0 <= j < r ==> !is_space(s@[j]),
        r == s@.len() || is_space(s@[r as int]),
{
    let mut k: usize = 0;
    while k < s.len() && !(s[k] == 0x20 || s[k] == 0x09 || s[k] == 0x0a || s[k] == 0x0b
        || s[k] == 0x0c || s[k] == 0x0d)
        invariant
            k <= s@.len(),
            forall|j: int| 0 <= j < k ==> !is_space(s@[j]),
        decreases s@.len() - k,
    {
        k = k + 1;
    }
    k
}

/// A record: its header line and its sequence.
pub struct Record {
    header: Vec<u8>,
    seq: Vec<u8>,
}

impl Record {
    pub closed spec fn header(&self) -> Seq<u8> {
        self.header@
    }

    pub closed spec fn sequence(&self) -> Seq<u8> {
        self.seq@
    }

    /// An empty record.
    pub fn new() -> (r: Record)
        ensures
            r.header() == Seq::<u8>::empty(),
            r.sequence() == Seq::<u8>::empty(),
    {
        Record { header: Vec::new(), seq: Vec::new() }
    }

    /// Whether the record holds neither a header nor a sequence.
    pub fn is_empty(&self) -> (r: bool)
        ensures
            r == (self.header().len() == 0 && self.sequence().len() == 0),
    {
        self.header.len() == 0 && self.seq.len() == 0
    }

    /// The id: the header's text up to its first whitespace, without the leading
    /// marker; nothing for a record without a header.
    pub fn id(&self) -> (r: Option<&[u8]>)
        ensures
            self.header().len() == 0 ==> r is None,
            self.header().len() > 0 ==> (r matches Some(s) && s@ == id_part(header_text(self.header()))),
    {
        if self.header.len() == 0 {
            return None;
        }
        let text = self.header_text();
        let k = first_space(text);
        proof { lemma_split_at_space(text@, k as int); }
        Some(slice_subrange(text, 0, k))
    }

    /// The description: the header's text after its first whitespace, if any.
    pub fn desc(&self) -> (r: Option<&[u8]>)
        ensures
            self.header().len() == 0 ==> r is None,
            r matches Some(s) ==> desc_part(header_text(self.header())) == Some(s@),
            self.header().len() > 0 ==> (r is Some <==> desc_part(header_text(self.header())) is Some),
    {
        if self.header.len() == 0 {
            return None;
        }
        let text = self.header_text();
        let k = first_space(text);
        proof { lemma_split_at_space(text@, k as int); }
        if k == text.len() {
            None
        } else {
            Some(slice_subrange(text, k + 1, text.len()))
        }
    }

    /// The header without its marker byte and trailing whitespace.
    fn header_text(&self) -> (r: &[u8])
        requires
            self.header().len() > 0,
        ensures
            r@ == header_text(self.header()),
    {
        let body = slice_subrange(self.header.as_slice(), 1, self.header.len());
        let n = trimmed_len(body);
        slice_subrange(body, 0, n)
    }

    /// The sequence.
    pub fn seq(&self) -> (r: &[u8])
        ensures
            r@ == self.sequence(),
    {
        self.seq.as_slice()
    }

    /// Checks that the record has an id and that its sequence is ASCII.
    pub fn check(&self) -> (r: Result<(), &'static str>)
        ensures
            r is Ok <==> self.header().len() > 0
                && forall|i: int| 0 <= i < self.sequence().len() ==> self.sequence()[i] < 128,
            self.header().len() == 0 ==> r == Err::<(), &'static str>("Expecting id for record."),
            r is Err && self.header().len() > 0
                ==> r == Err::<(), &'static str>("Non-ascii character found in sequence."),
    {
        if self.id().is_none() {
            return Err("Expecting id for record.");
        }
        let mut i: usize = 0;
        while i < self.seq.len()
            invariant
                i <= self.seq@.len(),
                self.header().len() > 0,
                forall|j: int| 0 <= j < i ==> self.seq@[j] < 128,
            decreases self.seq@.len() - i,
        {
            if self.seq[i] >= 128 {
                assert(self.sequence()[i as int] >= 128);
                return Err("Non-ascii character found in sequence.");
            }
            i = i + 1;
        }
        Ok(())
    }

    /// Empties the record.
    pub fn clear(&mut self)
        ensures
            final(self).header() == Seq::<u8>::empty(),
            final(self).sequence() == Seq::<u8>::empty(),
    {
        self.header.clear();
        self.seq.clear();
    }

    /// Takes `line` as the header line, replacing the previous one.
    pub fn set_header(&mut self, line: &[u8])
        ensures
            final(self).header() == line@,
            final(self).sequence() == old(self).sequence(),
    {
        self.header.clear();
        append(&mut self.header, line);
    }

    /// Appends a sequence line without its trailing whitespace.
    pub fn push_seq_line(&mut self, line: &[u8])
        ensures
            final(self).header() == old(self).header(),
            final(self).sequence() == old(self).sequence() + trim_end(line@),
    {
        let n = trimmed_len(line);
        append(&mut self.seq, slice_subrange(line, 0, n));
    }
}

/// The bytes that writing one record emits: a header line of the marker, the
/// id and, if given, a space and the description; then the sequence on one line.
pub open spec fn framed(id: Seq<u8>, desc: Option<Seq<u8>>, seq: Seq<u8>) -> Seq<u8> {
    let head = match desc {
        Some(d) => seq![0x3eu8] + id + seq![0x20u8] + d,
        None => seq![0x3eu8] + id,
    };
    head + seq![0x0au8] + seq + seq![0x0au8]
}

/// Writes records, each as a header line and one sequence line, to the end
/// of a byte vector.
pub struct Writer {
    out: Vec<u8>,
}

impl Writer {
    pub closed spec fn written(&self) -> Seq<u8> {
        self.out@
    }

    /// A writer that appends to `out`.
    pub fn new(out: Vec<u8>) -> (r: Writer)
        ensures
            r.written() == out@,
    {
        Writer { out }
    }

    fn write_bytes(&mut self, id: &[u8], desc: Option<&[u8]>, seq: &[u8])
        ensures
            final(self).written() == old(self).written() + framed(id@, match desc { Some(d) => Some(d@), None => None }, seq@),
    {
        self.out.push(0x3e);
        append(&mut self.out, id);
        match desc {
            Some(d) => {
                self.out.push(0x20);
                append(&mut self.out, d);
            },
            None => {},
        }
        self.out.push(0x0a);
        append(&mut self.out, seq);
        self.out.push(0x0a);
        assert(self.out@ =~= old(self).out@ + framed(id@, match desc { Some(d) => Some(d@), None => None }, seq@));
    }

    /// Writes a record with the given id, optional description and sequence.
    pub fn write(&mut self, id: &str, desc: Option<&str>, seq: &[u8])
        ensures
            final(self).written() == old(self).written() + framed(
                id.spec_bytes(),
                match desc { Some(d) => Some(d.spec_bytes()), None => None },
                seq@,
            ),
    {
        let d = match desc {
            Some(d) => Some(d.as_bytes()),
            None => None,
        };
        self.write_bytes(id.as_bytes(), d, seq);
    }

    /// Writes `record`, with an empty id where it has none.
    pub fn write_record(&mut self, record: &Record)
        ensures
            final(self).written() == old(self).written() + framed(
                if record.header().len() == 0 { Seq::empty() } else { id_part(header_text(record.header())) },
                if record.header().len() == 0 { None } else { desc_part(header_text(record.header())) },
                record.sequence(),
            ),
    {
        let id: &[u8] = match record.id() {
            Some(i) => i,
            None => &[],
        };
        self.write_bytes(id, record.desc(), record.seq());
    }

    /// Nothing is held back: everything written is already in the vector.
    pub fn flush(&mut self)
        ensures
            *final(self) == *old(self),
    {
    }

    /// The bytes written so far, after what the vector held at the start.
    pub fn get_ref(&self) -> (r: &Vec<u8>)
        ensures
            r@ == self.written(),
    {
        &self.out
    }

    /// Ends writing and returns the vector.
    pub fn into_inner(self) -> (r: Vec<u8>)
        ensures
            r@ == self.written(),
    {
        self.out
    }
}

/// Index just past the line that starts at `pos`: after its line feed, or
/// the end of the data.
pub open spec fn line_end(data: Seq<u8>, pos: int) -> int
    decreases data.len() - pos,
{
    if pos >= data.len() {
        data.len() as int
    } else if data[pos] == 0x0au8 {
        pos + 1
    } else {
        line_end(data, pos + 1)
    }
}

/// The sequence lines from `pos` up to the next header line or the end,
/// joined without trailing whitespace, and where they stop.
pub open spec fn seq_lines(data: Seq<u8>, pos: int) -> (Seq<u8>, int)
    decreases data.len() - pos,
{
    if pos < 0 || pos >= data.len() || data[pos] == 0x3eu8 {
        (Seq::empty(), pos)
    } else {
        let e = line_end(data, pos);
        if e <= pos || e > data.len() {
            (Seq::empty(), pos)
        } else {
            let rest = seq_lines(data, e);
            (trim_end(data.subrange(pos, e)) + rest.0, rest.1)
        }
    }
}

proof fn lemma_line_end(data: Seq<u8>, pos: int)
    requires
        0 <= pos < data.len(),
    ensures
        pos < line_end(data, pos) <= data.len(),
    decreases data.len() - pos,
{
    if data[pos] != 0x0au8 {
        if pos + 1 < data.len() {
            lemma_line_end(data, pos + 1);
        } else {
            assert(line_end(data, pos + 1) == data.len());
        }
    }
}

/// Why a record could not be read.
#[derive(Clone, Copy, Debug, PartialEq, Eq, Structural)]
pub enum FormatError {
    /// A record does not start with a header line.
    MissingHeader,
}

/// Reads records one after another from the bytes of a sequence file.
pub struct Reader {
    data: Vec<u8>,
    pos: usize,
}

impl Reader {
    pub closed spec fn data(&self) -> Seq<u8> {
        self.data@
    }

    pub closed spec fn position(&self) -> int {
        self.pos as int
    }

    pub open spec fn wf(&self) -> bool {
        0 <= self.position() <= self.data().len()
    }

    /// A reader at the start of `data`.
    pub fn new(data: Vec<u8>) -> (r: Reader)
        ensures
            r.wf(),
            r.data() == data@,
            r.position() == 0,
    {
        Reader { data, pos: 0 }
    }

    /// End of the line that starts at `pos`.
    fn line_end(&self, pos: usize) -> (r: usize)
        requires
            pos < self.data@.len(),
        ensures
            r == line_end(self.data@, pos as int),
            pos < r <= self.data@.len(),
    {
        proof { lemma_line_end(self.data@, pos as int); }
        let mut k = pos;
        while k < self.data.len() && self.data[k] != 0x0a
            invariant
                pos <= k <= self.data@.len(),
                line_end(self.data@, pos as int) == line_end(self.data@, k as int),
            decreases self.data@.len() - k,
        {
            k = k + 1;
        }
        if k < self.data.len() {
            k + 1
        } else {
            k
        }
    }

    /// Reads the next record into `record`, replacing what it held. At the
    /// end of the data the record is left empty.
    pub fn read(&mut self, record: &mut Record) -> (r: Result<(), FormatError>)
        requires
            old(self).wf(),
        ensures
            final(self).wf(),
            final(self).data() == old(self).data(),
            ({
                let d = old(self).data();
                let p = old(self).position();
                if p == d.len() {
                    r is Ok && final(record).header().len() == 0 && final(record).sequence().len() == 0
                        && final(self).position() == p
                } else if d[p] != 0x3eu8 {
                    r == Err::<(), FormatError>(FormatError::MissingHeader)
                        && final(self).position() == p
                        && final(record).header().len() == 0 && final(record).sequence().len() == 0
                } else {
                    let e = line_end(d, p);
                    &&& r is Ok
                    &&& final(record).header() == d.subrange(p, e)
                    &&& final(record).sequence() == seq_lines(d, e).0
                    &&& final(self).position() == seq_lines(d, e).1
                }
            }),
    {
        record.clear();
        if self.pos == self.data.len() {
            return Ok(());
        }
        if self.data[self.pos] != 0x3e {
            return Err(FormatError::MissingHeader);
        }
        let e = self.line_end(self.pos);
        record.set_header(slice_subrange(self.data.as_slice(), self.pos, e));
        self.pos = e;
        let ghost d = self.data@;
        let ghost total = seq_lines(d, e as int);
        assert(record.sequence() + seq_lines(d, e as int).0 =~= total.0);
        while self.pos < self.data.len() && self.data[self.pos] != 0x3e
            invariant
                d == self.data@,
                self.pos <= d.len(),
                total == seq_lines(d, e as int),
                record.header() == d.subrange(old(self).pos as int, e as int),
                record.sequence() + seq_lines(d, self.pos as int).0 == total.0,
                seq_lines(d, self.pos as int).1 == total.1,
            decreases d.len() - self.pos,
        {
            let end = self.line_end(self.pos);
            let ghost before = record.sequence();
            record.push_seq_line(slice_subrange(self.data.as_slice(), self.pos, end));
            proof {
                let line = trim_end(d.subrange(self.pos as int, end as int));
                assert(seq_lines(d, self.pos as int).0 == line + seq_lines(d, end as int).0);
                assert(before + (line + seq_lines(d, end as int).0)
                    =~= (before + line) + seq_lines(d, end as int).0);
            }
            self.pos = end;
        }
        assert(record.sequence() =~= total.0);
        Ok(())
    }

    /// The records that remain, one after another.
    pub fn records(self) -> (r: Records)
        requires
            self.wf(),
        ensures
            r.reader == self,
    {
        Records { reader: self }
    }
}

/// The records of a reader, one after another.
pub struct Records {
    pub reader: Reader,
}

impl Records {
    /// The next record, an error where one does not start with a header
    /// line, or nothing at the end of the data.
    pub fn next(&mut self) -> (r: Option<Result<Record, FormatError>>)
        requires
            old(self).reader.wf(),
        ensures
            final(self).reader.wf(),
            final(self).reader.data() == old(self).reader.data(),
            ({
                let d = old(self).reader.data();
                let p = old(self).reader.position();
                if p == d.len() {
                    r is None
                } else if d[p] != 0x3eu8 {
                    r == Some(Err::<Record, FormatError>(FormatError::MissingHeader))
                } else {
                    let e = line_end(d, p);
                    &&& r matches Some(Ok(rec))
                    &&& rec.header() == d.subrange(p, e)
                    &&& rec.sequence() == seq_lines(d, e).0
                    &&& final(self).reader.position() == seq_lines(d, e).1
                }
            }),
    {
        let mut record = Record::new();
        proof {
            let d = self.reader.data();
            let p = self.reader.position();
            if 0 <= p < d.len() {
                lemma_line_end(d, p);
            }
        }
        match self.reader.read(&mut record) {
            Ok(()) => {
                if record.is_empty() {
                    None
                } else {
                    Some(Ok(record))
                }
            },
            Err(e) => Some(Err(e)),
        }
    }
}

/// Appends `s` to `v`.
pub fn append(v: &mut Vec<u8>, s: &[u8])
    ensures
        final(v)@ == old(v)@ + s@,
{
    let mut i: usize = 0;
    while i < s.len()
        invariant
            i <= s@.len(),
            v@ == old(v)@ + s@.subrange(0, i as int),
        decreases s@.len() - i,
    {
        v.push(s[i]);
        i = i + 1;
        assert(v@ =~= old(v)@ + s@.subrange(0, i as int));
    }
    assert(s@.subrange(0, s@.len() as int) =~= s@);
}

} // verus!
