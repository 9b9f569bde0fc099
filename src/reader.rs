//! Reading ranges of records through the index, eagerly into a vector or
//! lazily one base at a time.

use vstd::prelude::*;
use vstd::arithmetic::div_mod::{lemma_div_is_ordered, lemma_fundamental_div_mod, lemma_fundamental_div_mod_converse};
use vstd::arithmetic::mul::lemma_mul_inequality;
use crate::index::{lemma_lookup_wf, rows_of, Index, IndexError};
use crate::layout::{
    bases_on_line, buffer_size, chunk_keep, chunk_step, range_start, chunk_read, column_after, lemma_phys_bounded,
    lemma_no_terminator, lemma_phys_monotone, lemma_phys_on_line, min_int, buffer_size_spec, IndexRecord, MAX_BUFFER_SIZE,
};
use crate::source::{ByteSource, ReadError};

verus! {

/// The bases at logical positions `start..stop` of the record laid out by `rec`.
pub open spec fn bases(data: Seq<u8>, rec: IndexRecord, start: int, stop: int) -> Seq<u8> {
    Seq::new((stop - start) as nat, |i: int| data[rec.phys(start + i)])
}

/// The data holds every byte that the range `start..stop` needs.
pub open spec fn covers(data: Seq<u8>, rec: IndexRecord, start: int, stop: int) -> bool {
    start == stop || rec.phys(stop - 1) < data.len()
}

/// Reading `start..stop` of the record with layout `rec` from `data`.
pub open spec fn range_of(data: Seq<u8>, rec: IndexRecord, start: int, stop: int) -> Result<Seq<u8>, ReadError> {
    if stop > rec.len {
        Err(ReadError::OutOfBounds)
    } else if start > stop {
        Err(ReadError::InvalidRange)
    } else if !covers(data, rec, start, stop) {
        Err(ReadError::UnexpectedEndOfData)
    } else {
        Ok(bases(data, rec, start, stop))
    }
}


/// Layouts whose full lines fit in the largest buffer and whose line
/// terminators take one or two bytes.
pub open spec fn regular(rec: IndexRecord) -> bool {
    rec.line_bytes <= MAX_BUFFER_SIZE && rec.line_bytes <= rec.line_bases + 2
}

/// How many physical lines the range `start..stop` touches.
pub open spec fn lines_touched(rec: IndexRecord, start: int, stop: int) -> int {
    if start >= stop {
        0
    } else {
        (stop - 1) / (rec.line_bases as int) - start / (rec.line_bases as int) + 1
    }
}

/// A buffer of `cap` bytes lets the read from column `col` with `left`
/// bases wanted go on one line per read: the rest of the line where the
/// range goes past it, and all that is left on the next line after that.
pub open spec fn chunk_fits(rec: IndexRecord, col: int, left: int, cap: int) -> bool {
    let on_line = rec.line_bases - col;
    ||| cap >= rec.line_bytes
    ||| {
        &&& (on_line < left ==> cap >= rec.line_bytes - col && left - on_line <= rec.line_bases
            && cap >= left - on_line)
        &&& (left <= on_line ==> cap >= left)
    }
}

/// A read cursor `col` bytes into line `line`, at byte `pos`, after the bases
/// before logical position `c`.
pub open spec fn cursor_at(rec: IndexRecord, pos: int, col: int, line: int, c: int) -> bool {
    &&& 0 <= col < rec.line_bytes
    &&& 0 <= line
    &&& pos == rec.line_address(line, col)
    &&& c == line * rec.line_bases + min_int(col, rec.line_bases as int)
}

/// One chunked read from a consistent cursor keeps exactly the bases at the
/// next logical positions, never a terminator byte, ends at a consistent
/// cursor, and reads nothing past the last wanted base.
pub proof fn lemma_chunk_step(rec: IndexRecord, pos: int, col: int, line: int, c: int, left: int, cap: int)
    requires
        rec.wf(),
        cursor_at(rec, pos, col, line, c),
        left > 0,
        cap > 0,
    ensures
        ({
            let n = chunk_read(rec, col, left, cap);
            let k = chunk_keep(rec, col, left, cap);
            let line2 = if col + n >= rec.line_bytes { line + 1 } else { line };
            &&& 0 < n <= cap
            &&& 0 <= k <= n
            &&& k <= left
            &&& col + n <= rec.line_bytes
            &&& (k == 0 ==> col >= rec.line_bases)
            &&& forall|j: int| 0 <= j < k ==> #[trigger] rec.phys(c + j) == pos + j
            &&& cursor_at(rec, pos + n, column_after(rec, col, n), line2, c + k)
            &&& pos + n <= rec.phys(c + left - 1) + 1
        }),
{
    let lb = rec.line_bases as int;
    let lby = rec.line_bytes as int;
    let n = chunk_read(rec, col, left, cap);
    let k = chunk_keep(rec, col, left, cap);
    assert((line + 1) * lb == line * lb + lb) by (nonlinear_arith);
    assert((line + 1) * lby == line * lby + lby) by (nonlinear_arith);
    assert forall|j: int| 0 <= j < k implies #[trigger] rec.phys(c + j) == pos + j by {
        assert(col < lb);
        lemma_phys_on_line(rec, line, col + j);
    }
    if bases_on_line(rec, col) < left {
        let q = line + 1;
        lemma_fundamental_div_mod_converse(q * lb, lb, q, 0);
        lemma_div_is_ordered(q * lb, c + left - 1, lb);
        lemma_fundamental_div_mod(c + left - 1, lb);
        lemma_mul_inequality(q, (c + left - 1) / lb, lby);
        assert(0 <= (c + left - 1) % lb) by {
            lemma_fundamental_div_mod(c + left - 1, lb);
        }
    } else {
        lemma_phys_on_line(rec, line, col + left - 1);
    }
}

/// A record file with its layout index. Reads move one shared position, so a
/// lazy read takes the reader over until it is handed back.
pub struct IndexedReader {
    pub source: ByteSource,
    pub index: Index,
}

impl IndexedReader {
    /// The bytes of the data file.
    pub open spec fn data(&self) -> Seq<u8> {
        self.source.bytes()
    }

    pub open spec fn wf(&self) -> bool {
        self.index.wf()
    }

    /// What reading `start..stop` of the record called `name` yields.
    pub open spec fn range_result(&self, name: Seq<char>, start: int, stop: int) -> Result<Seq<u8>, ReadError> {
        match self.index.lookup(name) {
            None => Err(ReadError::UnknownSequence),
            Some(rec) => range_of(self.data(), rec, start, stop),
        }
    }

    /// A reader over the data file `fasta` and the text of its index `fai`.
    pub fn new(fasta: Vec<u8>, fai: &[u8]) -> (r: Result<IndexedReader, IndexError>)
        ensures
            rows_of(fai@) is None ==> r is Err && r->Err_0 == IndexError::Unreadable,
            rows_of(fai@) matches Some(rows) ==> match r {
                Ok(rd) => Index::loaded_from(Ok(rd.index), rows),
                Err(e) => Index::loaded_from(Err(e), rows),
            },
            r matches Ok(rd) ==> rd.wf() && rd.data() == fasta@,
    {
        match Index::new(fai) {
            Ok(index) => Ok(IndexedReader::with_index(fasta, index)),
            Err(e) => Err(e),
        }
    }

    /// A reader over the data file `fasta` with an index already loaded.
    pub fn with_index(fasta: Vec<u8>, index: Index) -> (r: IndexedReader)
        requires
            index.wf(),
        ensures
            r.wf(),
            r.data() == fasta@,
            r.index == index,
    {
        IndexedReader { source: ByteSource::new(fasta), index }
    }

    /// The layout of the record called `seqname`.
    fn idx(&self, seqname: &str) -> (r: Result<IndexRecord, ReadError>)
        requires
            self.wf(),
        ensures
            r matches Ok(rec) ==> self.index.lookup(seqname@) == Some(rec) && rec.wf(),
            r is Err ==> self.index.lookup(seqname@) is None
                && r == Err::<IndexRecord, ReadError>(ReadError::UnknownSequence),
    {
        match self.index.get(seqname) {
            Some(rec) => {
                proof {
                    let i = choose|i: int| 0 <= i < self.index.names().len() && #[trigger] self.index.names()[i] == seqname@;
                    assert(self.index.records()[i].wf());
                }
                Ok(rec)
            },
            None => Err(ReadError::UnknownSequence),
        }
    }

    /// Moves to logical position `start` of a record and returns the column
    /// reached within its line.
    fn seek_to(&mut self, rec: &IndexRecord, start: u64) -> (r: u64)
        requires
            rec.wf(),
            start <= rec.len,
        ensures
            final(self).data() == old(self).data(),
            final(self).index == old(self).index,
            r == start % rec.line_bases,
            final(self).source.seeks() == old(self).source.seeks() + 1,
            final(self).source.reads() == old(self).source.reads(),
            cursor_at(*rec, final(self).source.position() as int, r as int, (start / rec.line_bases) as int, start as int),
    {
        let (pos, line_offset) = rec.start_position(start);
        self.source.seek(pos);
        proof {
            lemma_fundamental_div_mod(start as int, rec.line_bases as int);
            lemma_phys_bounded(*rec, start as int);
        }
        line_offset
    }

    /// Reads the rest of the current line's bases, but no more than
    /// `bases_left` and no more than the buffer holds, and returns how many
    /// bases were kept at the front of `buf`. Terminator bytes may be read
    /// but are never kept.
    fn read_line(&mut self, rec: &IndexRecord, line_offset: &mut u64, bases_left: u64, buf: &mut Vec<u8>) -> (r: Result<u64, ReadError>)
        requires
            rec.wf(),
            *old(line_offset) < rec.line_bytes,
            bases_left > 0,
            old(buf)@.len() > 0,
        ensures
            ({
                let col = *old(line_offset) as int;
                let cap = old(buf)@.len() as int;
                let n = chunk_read(*rec, col, bases_left as int, cap);
                let k = chunk_keep(*rec, col, bases_left as int, cap);
                let pos = old(self).source.position() as int;
                &&& final(self).data() == old(self).data()
                &&& final(self).index == old(self).index
                &&& final(buf)@.len() == old(buf)@.len()
                &&& (r is Ok <==> pos + n <= old(self).data().len())
                &&& r matches Ok(kept) ==> {
                    &&& kept == k
                    &&& kept <= bases_left
                    &&& kept <= bases_on_line(*rec, col)
                    &&& final(self).source.position() == pos + n
                    &&& *final(line_offset) == column_after(*rec, col, n)
                    &&& final(buf)@.subrange(0, k) == old(self).data().subrange(pos, pos + k)
                    &&& final(buf)@.subrange(0, n) == old(self).data().subrange(pos, pos + n)
                    &&& final(buf)@.subrange(n, cap) == old(buf)@.subrange(n, cap)
                    &&& final(self).source.seeks() == old(self).source.seeks()
                    &&& final(self).source.reads() == old(self).source.reads() + 1
                }
                &&& r is Err ==> r == Err::<u64, ReadError>(ReadError::UnexpectedEndOfData)
                    && *final(self) == *old(self) && *final(line_offset) == *old(line_offset)
                    && *final(buf) == *old(buf)
            }),
    {
        let step = chunk_step(rec, *line_offset, bases_left, buf.len() as u64);
        let ghost data = self.data();
        let ghost pos = self.source.position() as int;
        self.source.read_exact(buf, step.read as usize)?;
        assert(buf@.subrange(0, step.keep as int) =~= buf@.subrange(0, step.read as int).subrange(0, step.keep as int));
        assert(data.subrange(pos, pos + step.keep) =~= data.subrange(pos, pos + step.read).subrange(0, step.keep as int));
        *line_offset = step.next_offset;
        Ok(step.keep)
    }

    /// Reads `start..stop` of the record laid out by `rec` into `seq`,
    /// replacing what it held.
    fn read_into_buffer(&mut self, rec: &IndexRecord, start: u64, stop: u64, seq: &mut Vec<u8>) -> (r: Result<(), ReadError>)
        requires
            rec.wf(),
        ensures
            final(self).data() == old(self).data(),
            final(self).index == old(self).index,
            match range_of(old(self).data(), *rec, start as int, stop as int) {
                Ok(s) => r is Ok && final(seq)@ == s
                    && final(self).source.seeks() == old(self).source.seeks() + 1
                    && (regular(*rec) ==> final(self).source.reads()
                        == old(self).source.reads() + lines_touched(*rec, start as int, stop as int)),
                Err(e) => r == Err::<(), ReadError>(e)
                    && (e != ReadError::UnexpectedEndOfData ==> *final(seq) == *old(seq)
                        && *final(self) == *old(self))
                    && (e == ReadError::UnexpectedEndOfData ==> final(seq)@.len() < stop - start
                        && final(seq)@ == bases(old(self).data(), *rec, start as int, start + final(seq)@.len())),
            },
    {
        if stop > rec.len {
            return Err(ReadError::OutOfBounds);
        } else if start > stop {
            return Err(ReadError::InvalidRange);
        }
        let mut bases_left = stop - start;
        let mut line_offset = self.seek_to(rec, start);
        let mut buf = vec![0u8; buffer_size(rec, bases_left, line_offset)];
        seq.clear();
        let ghost data = self.data();
        let ghost mut line: int = (start / rec.line_bases) as int;
        let ghost mut c: int = start as int;
        let ghost reads0 = self.source.reads();
        let ghost cap0 = buf@.len() as int;
        assert(seq@ =~= bases(data, *rec, start as int, c));
        while bases_left > 0
            invariant
                rec.wf(),
                start <= stop <= rec.len,
                data == old(self).data(),
                self.data() == data,
                self.index == old(self).index,
                c == stop - bases_left,
                start <= c,
                cursor_at(*rec, self.source.position() as int, line_offset as int, line, c),
                seq@ == bases(data, *rec, start as int, c),
                c > start ==> rec.phys(c - 1) < data.len(),
                bases_left > 0 ==> buf@.len() > 0,
                self.source.seeks() == old(self).source.seeks() + 1,
                reads0 == old(self).source.reads(),
                cap0 == buf@.len(),
                regular(*rec) && bases_left > 0 ==> line_offset < rec.line_bases
                    && chunk_fits(*rec, line_offset as int, bases_left as int, cap0)
                    && self.source.reads() == reads0 + line - (start / rec.line_bases) as int,
                regular(*rec) && bases_left == 0 ==> self.source.reads()
                    == reads0 + lines_touched(*rec, start as int, stop as int),
            decreases
                bases_left,
                if line_offset >= rec.line_bases { 1int } else { 0int },
                rec.line_bytes - line_offset,
        {
            let ghost pos = self.source.position() as int;
            let ghost col = line_offset as int;
            let ghost cap = buf@.len() as int;
            proof {
                lemma_chunk_step(*rec, pos, col, line, c, bases_left as int, cap);
            }
            let kept = match self.read_line(rec, &mut line_offset, bases_left, &mut buf) {
                Ok(k) => k,
                Err(e) => {
                    assert(rec.phys(stop - 1) >= data.len());
                    assert(seq@.len() == c - start);
                    return Err(e);
                },
            };
            let ghost n = chunk_read(*rec, col, bases_left as int, cap);
            let ghost prev = seq@;
            assert(kept == chunk_keep(*rec, col, bases_left as int, cap));
            assert(kept <= n && n <= cap);
            let cap_n: usize = buf.len();
            assert(kept <= cap_n);
            let kept_n = kept as usize;
            assert(kept_n == kept);
            let mut j: usize = 0;
            while j < kept_n
                invariant
                    kept_n == kept,
                    j <= kept,
                    kept <= buf@.len(),
                    kept <= n,
                    pos + n <= data.len(),
                    buf@.subrange(0, kept as int) == data.subrange(pos, pos + kept),
                    seq@ == prev + buf@.subrange(0, j as int),
                decreases kept - j,
            {
                seq.push(buf[j]);
                j = j + 1;
                assert(seq@ =~= prev + buf@.subrange(0, j as int));
            }
            proof {
                assert forall|i: int| 0 <= i < kept implies #[trigger] buf@[i] == data[rec.phys(c + i)] by {
                    assert(buf@.subrange(0, kept as int)[i] == data.subrange(pos, pos + kept)[i]);
                }
                let full = bases(data, *rec, start as int, c + kept);
                assert forall|i: int| c - start <= i < c + kept - start implies #[trigger] full[i] == buf@[i - (c - start)] by {
                    let i2 = i - (c - start);
                    assert(rec.phys(c + i2) == pos + i2);
                    assert(start + i == c + i2);
                    assert(full[i] == data[rec.phys(start + i)]);
                    assert(buf@.subrange(0, kept as int)[i2] == data.subrange(pos, pos + kept)[i2]);
                    assert(buf@[i2] == data[pos + i2]);
                }
                assert(seq@ == prev + buf@.subrange(0, kept as int));
                assert(prev == bases(data, *rec, start as int, c));
                assert forall|i: int| 0 <= i < c - start implies #[trigger] full[i] == prev[i] by {
                    assert(full[i] == data[rec.phys(start + i)]);
                }
                assert(seq@ =~= full);
                if kept > 0 {
                    assert(rec.phys(c + (kept - 1)) == pos + (kept - 1));
                }
                if regular(*rec) && kept < bases_left {
                    assert(col + n >= rec.line_bytes);
                }
                if regular(*rec) && kept == bases_left {
                    lemma_phys_on_line(*rec, line, col + bases_left - 1);
                }
                if col + n >= rec.line_bytes {
                    line = line + 1;
                }
                c = c + kept;
            }
            bases_left = bases_left - kept;
        }
        Ok(())
    }

    /// Reads bases `start..stop` (stop excluded) of the record called
    /// `seqname` into `seq`, replacing what it held.
    pub fn read(&mut self, seqname: &str, start: u64, stop: u64, seq: &mut Vec<u8>) -> (r: Result<(), ReadError>)
        requires
            old(self).wf(),
        ensures
            final(self).wf(),
            final(self).data() == old(self).data(),
            final(self).index == old(self).index,
            match old(self).range_result(seqname@, start as int, stop as int) {
                Ok(s) => r is Ok && final(seq)@ == s
                    && final(self).source.seeks() == old(self).source.seeks() + 1
                    && (regular(old(self).index.lookup(seqname@)->0) ==> final(self).source.reads()
                        == old(self).source.reads() + lines_touched(
                            old(self).index.lookup(seqname@)->0, start as int, stop as int)),
                Err(e) => r == Err::<(), ReadError>(e)
                    && (e != ReadError::UnexpectedEndOfData ==> *final(seq) == *old(seq)
                        && *final(self) == *old(self))
                    && (e == ReadError::UnexpectedEndOfData ==> final(seq)@.len() < stop - start
                        && final(seq)@ == bases(old(self).data(), old(self).index.lookup(seqname@)->0,
                            start as int, start + final(seq)@.len())),
            },
    {
        let idx = self.idx(seqname)?;
        self.read_into_buffer(&idx, start, stop, seq)
    }

    /// Reads the whole record called `seqname` into `seq`, replacing what it held.
    pub fn read_all(&mut self, seqname: &str, seq: &mut Vec<u8>) -> (r: Result<(), ReadError>)
        requires
            old(self).wf(),
        ensures
            final(self).wf(),
            final(self).data() == old(self).data(),
            final(self).index == old(self).index,
            match old(self).index.lookup(seqname@) {
                None => r == Err::<(), ReadError>(ReadError::UnknownSequence) && *final(seq) == *old(seq)
                    && *final(self) == *old(self),
                Some(rec) => match old(self).range_result(seqname@, 0, rec.len as int) {
                    Ok(s) => r is Ok && final(seq)@ == s,
                    Err(e) => r == Err::<(), ReadError>(e) && final(seq)@.len() < rec.len
                        && final(seq)@ == bases(old(self).data(), rec, 0, final(seq)@.len() as int),
                },
            },
    {
        let idx = self.idx(seqname)?;
        self.read_into_buffer(&idx, 0, idx.len, seq)
    }

    /// Starts a lazy read of `start..stop` of the record laid out by `rec`.
    fn read_into_iter(self, rec: IndexRecord, start: u64, stop: u64) -> (r: Result<IndexedReaderIterator, (IndexedReader, ReadError)>)
        requires
            self.wf(),
            rec.wf(),
        ensures
            stop > rec.len ==> (r matches Err((rd, e)) && rd == self && e == ReadError::OutOfBounds),
            stop <= rec.len && start > stop ==> (r matches Err((rd, e)) && rd == self && e == ReadError::InvalidRange),
            start <= stop <= rec.len ==> (r matches Ok(it) && it.wf()
                && it.data() == self.data() && it.index() == self.index
                && it.yielded() == Seq::<u8>::empty()
                && it.whole() == bases(self.data(), rec, start as int, stop as int)
                && it.rest() == bases(self.data(), rec, start as int, stop as int)
                && it.covered() == covers(self.data(), rec, start as int, stop as int)
                && it.buffer_len() == buffer_size_spec(rec, stop - start, (start % rec.line_bases) as int)
                && it.buffer_len() <= MAX_BUFFER_SIZE
                && it.source().seeks() == self.source.seeks() + 1
                && it.source().reads() == self.source.reads()),
    {
        if stop > rec.len {
            return Err((self, ReadError::OutOfBounds));
        } else if start > stop {
            return Err((self, ReadError::InvalidRange));
        }
        let mut rd = self;
        let line_offset = rd.seek_to(&rec, start);
        let size = buffer_size(&rec, stop - start, line_offset);
        let it = IndexedReaderIterator {
            reader: rd,
            record: rec,
            bases_left: stop - start,
            line_offset,
            buf: vec![0u8; size],
            buf_idx: 0,
            buf_len: 0,
            line: Ghost((start / rec.line_bases) as int),
            start: Ghost(start as int),
            stop: Ghost(stop as int),
            produced: Ghost(Seq::empty()),
        };
        assert(it.buf@.subrange(0, 0) =~= bases(it.data(), rec, start as int, start as int));
        assert(it.rest() =~= bases(it.data(), rec, start as int, stop as int));
        Ok(it)
    }

    /// Starts a lazy read of bases `start..stop` (stop excluded) of the
    /// record called `seqname`. The iterator holds the reader until
    /// `into_reader` hands it back; where the read cannot start, the reader
    /// comes back with the error.
    pub fn read_iter(self, seqname: &str, start: u64, stop: u64) -> (r: Result<IndexedReaderIterator, (IndexedReader, ReadError)>)
        requires
            self.wf(),
        ensures
            match self.range_result(seqname@, start as int, stop as int) {
                Err(e) if e != ReadError::UnexpectedEndOfData => r matches Err((rd, e2)) && rd == self && e2 == e,
                _ => r matches Ok(it) && it.wf() && it.data() == self.data() && it.index() == self.index
                    && it.yielded() == Seq::<u8>::empty()
                    && it.whole() == bases(self.data(), self.index.lookup(seqname@)->0, start as int, stop as int)
                    && it.rest() == it.whole()
                    && (it.covered() <==> self.range_result(seqname@, start as int, stop as int) is Ok)
                    && it.buffer_len() <= MAX_BUFFER_SIZE
                    && it.source().reads() == self.source.reads(),
            },
    {
        match self.idx(seqname) {
            Ok(rec) => self.read_into_iter(rec, start, stop),
            Err(e) => Err((self, e)),
        }
    }

    /// Starts a lazy read of the whole record called `seqname`.
    pub fn read_iter_all(self, seqname: &str) -> (r: Result<IndexedReaderIterator, (IndexedReader, ReadError)>)
        requires
            self.wf(),
        ensures
            match self.index.lookup(seqname@) {
                None => r matches Err((rd, e)) && rd == self && e == ReadError::UnknownSequence,
                Some(rec) => r matches Ok(it) && it.wf() && it.data() == self.data() && it.index() == self.index
                    && it.yielded() == Seq::<u8>::empty()
                    && it.whole() == bases(self.data(), rec, 0, rec.len as int)
                    && it.rest() == it.whole()
                    && (it.covered() <==> self.range_result(seqname@, 0, rec.len as int) is Ok)
                    && it.buffer_len() <= MAX_BUFFER_SIZE
                    && it.source().reads() == self.source.reads(),
            },
    {
        match self.idx(seqname) {
            Ok(rec) => self.read_into_iter(rec, 0, rec.len),
            Err(e) => Err((self, e)),
        }
    }
}

/// A lazy read of a range: yields its bases one at a time, refilling a small
/// buffer from the data file as needed. It holds the reader it came from.
pub struct IndexedReaderIterator {
    reader: IndexedReader,
    record: IndexRecord,
    bases_left: u64,
    line_offset: u64,
    buf: Vec<u8>,
    buf_idx: usize,
    buf_len: usize,
    line: Ghost<int>,
    start: Ghost<int>,
    stop: Ghost<int>,
    produced: Ghost<Seq<u8>>,
}

impl IndexedReaderIterator {
    pub closed spec fn data(&self) -> Seq<u8> {
        self.reader.data()
    }

    pub closed spec fn index(&self) -> Index {
        self.reader.index
    }

    /// Logical position of the next base to yield.
    closed spec fn next_pos(&self) -> int {
        self.stop@ - self.bases_left - (self.buf_len - self.buf_idx)
    }

    /// The bases still to be yielded.
    pub closed spec fn rest(&self) -> Seq<u8> {
        bases(self.data(), self.record, self.next_pos(), self.stop@)
    }

    /// The bases yielded so far.
    pub closed spec fn yielded(&self) -> Seq<u8> {
        self.produced@
    }

    /// The source read from.
    pub closed spec fn source(&self) -> ByteSource {
        self.reader.source
    }

    /// Size of the working buffer.
    pub closed spec fn buffer_len(&self) -> nat {
        self.buf@.len()
    }

    /// Byte address of the next base to yield.
    pub closed spec fn next_address(&self) -> int {
        self.record.phys(self.next_pos())
    }

    /// The whole range being read.
    pub closed spec fn whole(&self) -> Seq<u8> {
        bases(self.data(), self.record, self.start@, self.stop@)
    }

    /// The data holds every byte that the whole range needs.
    pub closed spec fn covered(&self) -> bool {
        covers(self.data(), self.record, self.start@, self.stop@)
    }

    pub closed spec fn wf(&self) -> bool {
        let c = self.stop@ - self.bases_left;
        &&& self.reader.wf()
        &&& self.record.wf()
        &&& 0 <= self.start@ <= self.next_pos() <= c <= self.stop@ <= self.record.len
        &&& cursor_at(self.record, self.reader.source.position() as int, self.line_offset as int, self.line@, c)
        &&& self.buf_idx <= self.buf_len <= self.buf@.len()
        &&& self.buf@.subrange(self.buf_idx as int, self.buf_len as int)
            == bases(self.data(), self.record, self.next_pos(), c)
        &&& (self.bases_left > 0 ==> self.buf@.len() > 0)
        &&& (c > self.start@ ==> self.record.phys(c - 1) < self.data().len())
        &&& self.produced@ + self.rest() == self.whole()
    }

    /// Refills the buffer with the next bases of the range.
    fn fill_buffer(&mut self) -> (r: Result<(), ReadError>)
        requires
            old(self).wf(),
            old(self).buf_idx == old(self).buf_len,
            old(self).bases_left > 0,
        ensures
            final(self).wf(),
            final(self).data() == old(self).data(),
            final(self).index() == old(self).index(),
            final(self).rest() == old(self).rest(),
            final(self).yielded() == old(self).yielded(),
            final(self).covered() == old(self).covered(),
            final(self).whole() == old(self).whole(),
            final(self).buffer_len() == old(self).buffer_len(),
            final(self).next_address() == old(self).next_address(),
            r is Ok ==> final(self).buf_idx == 0 && 0 < final(self).buf_len
                && final(self).bases_left == old(self).bases_left - final(self).buf_len,
            r is Err ==> r == Err::<(), ReadError>(ReadError::UnexpectedEndOfData) && !old(self).covered(),
    {
        let ghost data = self.data();
        let rec = self.record;
        while self.buf_idx == self.buf_len
            invariant
                self.wf(),
                self.record == rec,
                rec == old(self).record,
                data == old(self).data(),
                self.data() == data,
                self.index() == old(self).index(),
                self.start == old(self).start,
                self.stop == old(self).stop,
                self.produced == old(self).produced,
                self.next_pos() == old(self).next_pos(),
                self.buf_idx == self.buf_len ==> self.bases_left > 0,
                self.bases_left + (self.buf_len - self.buf_idx) == old(self).bases_left,
                self.buf_idx == self.buf_len || self.buf_idx == 0,
                self.buf@.len() == old(self).buf@.len(),
            decreases
                self.bases_left,
                if self.line_offset >= rec.line_bases { 1int } else { 0int },
                rec.line_bytes - self.line_offset,
        {
            let ghost c = self.stop@ - self.bases_left;
            let ghost pos = self.reader.source.position() as int;
            let ghost col = self.line_offset as int;
            let ghost cap = self.buf@.len() as int;
            proof {
                lemma_chunk_step(rec, pos, col, self.line@, c, self.bases_left as int, cap);
            }
            let mut line_offset = self.line_offset;
            let kept = match self.reader.read_line(&rec, &mut line_offset, self.bases_left, &mut self.buf) {
                Ok(k) => k,
                Err(e) => {
                    assert(rec.phys(self.stop@ - 1) >= data.len());
                    return Err(e);
                },
            };
            let ghost n = chunk_read(rec, col, self.bases_left as int, cap);
            let cap_n: usize = self.buf.len();
            assert(kept <= cap_n);
            self.line_offset = line_offset;
            self.buf_idx = 0;
            self.buf_len = kept as usize;
            self.bases_left = self.bases_left - kept;
            proof {
                if col + n >= rec.line_bytes {
                    self.line@ = self.line@ + 1;
                }
                let got = self.buf@.subrange(0, kept as int);
                let want = bases(data, rec, c, c + kept);
                assert forall|i: int| 0 <= i < kept implies #[trigger] got[i] == want[i] by {
                    assert(rec.phys(c + i) == pos + i);
                    assert(got[i] == data.subrange(pos, pos + kept)[i]);
                }
                assert(got =~= want);
                if kept > 0 {
                    assert(rec.phys(c + (kept - 1)) == pos + (kept - 1));
                }
            }
        }
        Ok(())
    }

    /// The next base of the range, an error where the data ends before it,
    /// or nothing once the range is exhausted.
    pub fn next(&mut self) -> (r: Option<Result<u8, ReadError>>)
        requires
            old(self).wf(),
        ensures
            final(self).wf(),
            final(self).data() == old(self).data(),
            final(self).index() == old(self).index(),
            final(self).covered() == old(self).covered(),
            final(self).whole() == old(self).whole(),
            old(self).rest().len() == 0 <==> r is None,
            r matches Some(Ok(b)) ==> b == old(self).rest()[0]
                && final(self).rest() == old(self).rest().drop_first()
                && final(self).yielded() == old(self).yielded().push(b),
            !(r matches Some(Ok(_))) ==> final(self).rest() == old(self).rest()
                && final(self).yielded() == old(self).yielded(),
            r matches Some(Err(e)) ==> e == ReadError::UnexpectedEndOfData && !old(self).covered(),
            r matches Some(Ok(_)) ==> old(self).next_address() < old(self).data().len(),
            final(self).buffer_len() == old(self).buffer_len(),
    {
        if self.buf_idx < self.buf_len {
            Some(Ok(self.take_buffered()))
        } else if self.bases_left > 0 {
            match self.fill_buffer() {
                Ok(()) => Some(Ok(self.take_buffered())),
                Err(e) => Some(Err(e)),
            }
        } else {
            None
        }
    }

    /// Yields the next buffered base.
    fn take_buffered(&mut self) -> (b: u8)
        requires
            old(self).wf(),
            old(self).buf_idx < old(self).buf_len,
        ensures
            final(self).wf(),
            final(self).data() == old(self).data(),
            final(self).index() == old(self).index(),
            final(self).covered() == old(self).covered(),
            final(self).whole() == old(self).whole(),
            old(self).rest().len() > 0,
            old(self).next_address() < old(self).data().len(),
            final(self).buffer_len() == old(self).buffer_len(),
            final(self).bases_left == old(self).bases_left,
            final(self).next_pos() == old(self).next_pos() + 1,
            b == old(self).rest()[0],
            final(self).rest() == old(self).rest().drop_first(),
            final(self).yielded() == old(self).yielded().push(b),
    {
        let ghost old_rest = self.rest();
        let ghost c = self.stop@ - self.bases_left;
        let ghost old_buffered = self.buf@.subrange(self.buf_idx as int, self.buf_len as int);
        let b = self.buf[self.buf_idx];
        proof {
            lemma_phys_monotone(self.record, self.next_pos(), c - 1);
            let p = self.next_pos();
            assert(self.buf@.subrange(self.buf_idx as int, self.buf_len as int)[0] == b);
            assert(old_rest[0] == bases(self.data(), self.record, p, c)[0]);
            self.produced@ = self.produced@.push(b);
        }
        self.buf_idx = self.buf_idx + 1;
        proof {
            assert(self.rest() =~= old_rest.drop_first());
            let now = bases(self.data(), self.record, self.next_pos(), c);
            let before = bases(self.data(), self.record, self.next_pos() - 1, c);
            assert(old_buffered == before);
            assert forall|i: int| 0 <= i < now.len() implies #[trigger] now[i] == before[i + 1] by {
                assert(self.next_pos() + i == self.next_pos() - 1 + (i + 1));
            }
            assert(self.buf@.subrange(self.buf_idx as int, self.buf_len as int)
                =~= bases(self.data(), self.record, self.next_pos(), c));
            assert(self.produced@ + self.rest() =~= old(self).produced@ + old_rest);
        }
        b
    }

    /// How many bases are still to be yielded.
    pub fn size_hint(&self) -> (r: u64)
        requires
            self.wf(),
        ensures
            r == self.rest().len(),
    {
        self.bases_left + (self.buf_len - self.buf_idx) as u64
    }

    /// Ends the lazy read and hands the reader back.
    pub fn into_reader(self) -> (r: IndexedReader)
        requires
            self.wf(),
        ensures
            r.wf(),
            r.data() == self.data(),
            r.index == self.index(),
    {
        self.reader
    }
}

/// Reading part of a record gives the matching slice of reading all of it.
pub proof fn lemma_range_is_slice(rd: IndexedReader, name: Seq<char>, start: int, stop: int)
    requires
        rd.wf(),
        rd.index.lookup(name) is Some,
        0 <= start <= stop <= rd.index.lookup(name)->0.len,
        rd.range_result(name, 0, rd.index.lookup(name)->0.len as int) is Ok,
    ensures
        rd.range_result(name, start, stop) == Ok::<Seq<u8>, ReadError>(
            rd.range_result(name, 0, rd.index.lookup(name)->0.len as int)->Ok_0.subrange(start, stop),
        ),
{
    let rec = rd.index.lookup(name)->0;
    let all = bases(rd.data(), rec, 0, rec.len as int);
    if start < stop {
        lemma_phys_monotone(rec, stop - 1, rec.len - 1);
    }
    assert(bases(rd.data(), rec, start, stop) =~= all.subrange(start, stop));
}

/// A lazy read of a range, once it has yielded everything, has yielded in
/// order exactly the bases that an eager read of the same range returns.
pub proof fn lemma_lazy_matches_eager(
    rd: IndexedReader,
    name: Seq<char>,
    start: int,
    stop: int,
    it: IndexedReaderIterator,
)
    requires
        rd.wf(),
        rd.range_result(name, start, stop) is Ok,
        it.wf(),
        it.whole() == bases(rd.data(), rd.index.lookup(name)->0, start, stop),
        it.rest().len() == 0,
    ensures
        it.yielded() == rd.range_result(name, start, stop)->Ok_0,
{
    assert(it.yielded() =~= it.yielded() + it.rest());
}

/// The bases that a read returns never include a line terminator: each comes
/// from a column inside its line's bases.
pub proof fn lemma_read_skips_terminators(rd: IndexedReader, name: Seq<char>, start: int, stop: int, i: int)
    requires
        rd.wf(),
        0 <= start,
        rd.range_result(name, start, stop) is Ok,
        0 <= i < stop - start,
    ensures
        ({
            let rec = rd.index.lookup(name)->0;
            let a = rec.phys(start + i);
            &&& rd.range_result(name, start, stop)->Ok_0[i] == rd.data()[a]
            &&& (a - rec.offset) % (rec.line_bytes as int) < rec.line_bases
        }),
{
    let rec = rd.index.lookup(name)->0;
    lemma_lookup_wf(rd.index, name);
    lemma_no_terminator(rec, start + i);
}

/// An empty range reads as nothing, never as an error.
pub proof fn lemma_empty_range(rd: IndexedReader, name: Seq<char>, k: int)
    requires
        rd.wf(),
        rd.index.lookup(name) is Some,
        0 <= k <= rd.index.lookup(name)->0.len,
    ensures
        rd.range_result(name, k, k) == Ok::<Seq<u8>, ReadError>(Seq::empty()),
{
    let rec = rd.index.lookup(name)->0;
    assert(bases(rd.data(), rec, k, k) =~= Seq::empty());
}

/// Errors at the edges: a stop past the record's end, a start after the stop
/// and an unknown name each give their own error; a stop at the end does not.
pub proof fn lemma_range_errors(rd: IndexedReader, name: Seq<char>, start: int, stop: int)
    requires
        rd.wf(),
    ensures
        rd.index.lookup(name) is None ==> rd.range_result(name, start, stop)
            == Err::<Seq<u8>, ReadError>(ReadError::UnknownSequence),
        rd.index.lookup(name) matches Some(rec) ==> {
            &&& (stop > rec.len ==> rd.range_result(name, start, stop)
                == Err::<Seq<u8>, ReadError>(ReadError::OutOfBounds))
            &&& (stop == rec.len + 1 ==> rd.range_result(name, start, stop)
                == Err::<Seq<u8>, ReadError>(ReadError::OutOfBounds))
            &&& (stop <= rec.len && start > stop ==> rd.range_result(name, start, stop)
                == Err::<Seq<u8>, ReadError>(ReadError::InvalidRange))
            &&& (0 <= start <= stop == rec.len ==> rd.range_result(name, start, stop)
                != Err::<Seq<u8>, ReadError>(ReadError::OutOfBounds)
                && rd.range_result(name, start, stop)
                != Err::<Seq<u8>, ReadError>(ReadError::InvalidRange))
        },
{
}

} // verus!
