//! Layout of one record in the data file and the arithmetic that maps
//! logical base positions to physical byte addresses.

use vstd::prelude::*;
use vstd::arithmetic::div_mod::{
    lemma_div_is_ordered, lemma_fundamental_div_mod, lemma_fundamental_div_mod_converse,
};
use vstd::arithmetic::mul::lemma_mul_inequality;

use crate::source::ReadError;

verus! {

/// Largest working buffer used while reading a range.
pub const MAX_BUFFER_SIZE: u64 = 512;

/// Where a record's sequence lies in the data file.
#[derive(Clone, Copy, Debug, PartialEq, Eq, Structural)]
pub struct IndexRecord {
    /// Number of bases in the record.
    pub len: u64,
    /// Byte address of the first base.
    pub offset: u64,
    /// Bases on each full line.
    pub line_bases: u64,
    /// Bytes on each full line, line terminator included.
    pub line_bytes: u64,
}

impl IndexRecord {
    /// The layout can be read: lines hold at least one base, a line's bytes
    /// hold its bases, and every address up to the line after the last base
    /// fits in a `u64`.
    pub open spec fn wf(&self) -> bool {
        &&& 0 < self.line_bases <= self.line_bytes
        &&& self.offset + (self.len / self.line_bases + 1) * self.line_bytes <= u64::MAX
    }

    /// Physical byte address of logical position `p`.
    pub open spec fn phys(&self, p: int) -> int {
        self.offset + (p / self.line_bases as int) * self.line_bytes + p % self.line_bases as int
    }

    /// Byte address reached after `line` whole lines and `col` more bytes.
    pub open spec fn line_address(&self, line: int, col: int) -> int {
        self.offset + line * self.line_bytes + col
    }

    /// Builds a record layout from its four numbers.
    pub fn new(len: u64, offset: u64, line_bases: u64, line_bytes: u64) -> (r: IndexRecord)
        ensures
            r == (IndexRecord { len, offset, line_bases, line_bytes }),
    {
        IndexRecord { len, offset, line_bases, line_bytes }
    }

    /// Whether the layout is usable, decided without overflow.
    pub fn is_valid(&self) -> (r: bool)
        ensures
            r == self.wf(),
    {
        if self.line_bases == 0 || self.line_bases > self.line_bytes {
            return false;
        }
        let lines = self.len / self.line_bases;
        match lines.checked_add(1) {
            None => {
                let ghost q = self.len / self.line_bases + 1;
                let ghost w = self.line_bytes as int;
                assert(q * w > u64::MAX) by (nonlinear_arith)
                    requires q > u64::MAX, w >= 1;
                false
            },
            Some(n) => {
                assert(n == self.len / self.line_bases + 1);
                match n.checked_mul(self.line_bytes) {
                    None => false,
                    Some(b) => {
                        assert(b == (self.len / self.line_bases + 1) * self.line_bytes);
                        b.checked_add(self.offset).is_some()
                    },
                }
            },
        }
    }

    /// Byte address of logical position `start` and the column it sits at
    /// within its line.
    pub fn start_position(&self, start: u64) -> (r: (u64, u64))
        requires
            self.wf(),
            start <= self.len,
        ensures
            r.0 == self.phys(start as int),
            r.1 == start % self.line_bases,
            r.1 < self.line_bases,
    {
        proof {
            lemma_phys_bounded(*self, start as int);
        }
        let line_offset = start % self.line_bases;
        let line_start = start / self.line_bases * self.line_bytes;
        (self.offset + line_start + line_offset, line_offset)
    }
}


/// Bases still to come on the current line when the cursor sits at column `col`.
pub open spec fn bases_on_line(rec: IndexRecord, col: int) -> int {
    rec.line_bases - (if col < rec.line_bases { col } else { rec.line_bases as int })
}

pub open spec fn min_int(a: int, b: int) -> int {
    if a < b { a } else { b }
}

/// Bytes taken by one chunked read at column `col`, with `left` bases still
/// wanted and a buffer of `cap` bytes.
pub open spec fn chunk_read(rec: IndexRecord, col: int, left: int, cap: int) -> int {
    if bases_on_line(rec, col) < left {
        min_int(cap, rec.line_bytes - col)
    } else {
        min_int(cap, left)
    }
}

/// Bases kept out of one chunked read: never the line terminator.
pub open spec fn chunk_keep(rec: IndexRecord, col: int, left: int, cap: int) -> int {
    if bases_on_line(rec, col) < left {
        min_int(chunk_read(rec, col, left, cap), bases_on_line(rec, col))
    } else {
        chunk_read(rec, col, left, cap)
    }
}

/// Column after reading `n` bytes from column `col`, wrapping at the line's end.
pub open spec fn column_after(rec: IndexRecord, col: int, n: int) -> int {
    if col + n >= rec.line_bytes { 0 } else { col + n }
}

/// Working buffer size for reading `length` bases from column `col`.
pub open spec fn buffer_size_spec(rec: IndexRecord, length: int, col: int) -> int {
    let size = if length < rec.line_bytes {
        if length + col > rec.line_bases && length + col < rec.line_bytes {
            rec.line_bytes - col
        } else {
            length
        }
    } else {
        rec.line_bytes as int
    };
    min_int(MAX_BUFFER_SIZE as int, size)
}

/// Chooses the working buffer size: a whole line per read where possible,
/// the rest of the first line when the request ends among its terminator
/// bytes, and never more than `MAX_BUFFER_SIZE`.
pub fn buffer_size(rec: &IndexRecord, length: u64, col: u64) -> (r: usize)
    requires
        rec.wf(),
        col < rec.line_bases,
    ensures
        r == buffer_size_spec(*rec, length as int, col as int),
        length > 0 ==> r > 0,
        r <= MAX_BUFFER_SIZE,
{
    let size: u64 = if length < rec.line_bytes {
        if length > rec.line_bases - col && length < rec.line_bytes - col {
            rec.line_bytes - col
        } else {
            length
        }
    } else {
        rec.line_bytes
    };
    if size < MAX_BUFFER_SIZE {
        size as usize
    } else {
        MAX_BUFFER_SIZE as usize
    }
}


/// One step of a chunked read: how many bytes to read, how many of them are
/// bases to keep, and the column within the line after the read.
#[derive(Clone, Copy, Debug, PartialEq, Eq, Structural)]
pub struct ChunkStep {
    pub read: u64,
    pub keep: u64,
    pub next_offset: u64,
}

/// Decides the next chunked read from column `line_offset`, with `bases_left`
/// bases still wanted and a buffer of `cap` bytes: the rest of the line's
/// bases, terminator bytes included where the range goes on past the line,
/// but never more than the buffer holds.
pub fn chunk_step(rec: &IndexRecord, line_offset: u64, bases_left: u64, cap: u64) -> (r: ChunkStep)
    requires
        rec.wf(),
        line_offset < rec.line_bytes,
        bases_left > 0,
        cap > 0,
    ensures
        r.read == chunk_read(*rec, line_offset as int, bases_left as int, cap as int),
        r.keep == chunk_keep(*rec, line_offset as int, bases_left as int, cap as int),
        r.next_offset == column_after(*rec, line_offset as int, r.read as int),
        0 < r.read <= cap,
        r.keep <= r.read,
        r.keep <= bases_left,
        r.keep <= bases_on_line(*rec, line_offset as int),
        line_offset + r.read <= rec.line_bytes,
        r.next_offset < rec.line_bytes,
{
    let lo = line_offset;
    let on_line = rec.line_bases - if rec.line_bases < lo { rec.line_bases } else { lo };
    let (read, keep) = if on_line < bases_left {
        let room = rec.line_bytes - lo;
        let read = if cap < room { cap } else { room };
        let keep = if read < on_line { read } else { on_line };
        (read, keep)
    } else {
        let read = if cap < bases_left { cap } else { bases_left };
        (read, read)
    };
    let next_offset = if read >= rec.line_bytes - lo { 0 } else { lo + read };
    ChunkStep { read, keep, next_offset }
}

/// Where a read of `start..stop` begins: the byte address to seek to, the
/// column reached within its line, and the working buffer size; or the
/// error for a range that the record does not hold.
pub fn range_start(rec: &IndexRecord, start: u64, stop: u64) -> (r: Result<(u64, u64, usize), ReadError>)
    requires
        rec.wf(),
    ensures
        stop > rec.len ==> r == Err::<(u64, u64, usize), ReadError>(ReadError::OutOfBounds),
        stop <= rec.len && start > stop ==> r == Err::<(u64, u64, usize), ReadError>(ReadError::InvalidRange),
        start <= stop <= rec.len ==> (r matches Ok((addr, col, size)) && {
            &&& addr == rec.phys(start as int)
            &&& col == start % rec.line_bases
            &&& size == buffer_size_spec(*rec, stop - start, col as int)
            &&& (start < stop ==> size > 0)
            &&& size <= MAX_BUFFER_SIZE
        }),
{
    if stop > rec.len {
        return Err(ReadError::OutOfBounds);
    } else if start > stop {
        return Err(ReadError::InvalidRange);
    }
    let (addr, col) = rec.start_position(start);
    let size = buffer_size(rec, stop - start, col);
    Ok((addr, col, size))
}

/// Addresses of positions up to `len` stay below the end of the line after
/// the last base.
pub proof fn lemma_phys_bounded(rec: IndexRecord, p: int)
    requires
        rec.wf(),
        0 <= p <= rec.len,
    ensures
        rec.phys(p) + rec.line_bytes - p % rec.line_bases as int
            <= rec.offset + (rec.len / rec.line_bases + 1) * rec.line_bytes,
        0 <= p % (rec.line_bases as int) < rec.line_bases,
        0 <= p / rec.line_bases as int <= rec.len / rec.line_bases,
{
    let lb = rec.line_bases as int;
    let lby = rec.line_bytes as int;
    lemma_div_is_ordered(p, rec.len as int, lb);
    lemma_fundamental_div_mod(p, lb);
    lemma_mul_inequality(p / lb + 1, rec.len as int / lb + 1, lby);
    assert((p / lb + 1) * lby == (p / lb) * lby + lby) by (nonlinear_arith);
    assert(p / lb >= 0) by (nonlinear_arith)
        requires p >= 0, lb > 0;
}

/// A position `line * line_bases + col` with `col` inside the line's bases
/// lies at column `col` of line `line`.
pub proof fn lemma_phys_on_line(rec: IndexRecord, line: int, col: int)
    requires
        rec.wf(),
        0 <= col < rec.line_bases,
    ensures
        (line * rec.line_bases + col) / rec.line_bases as int == line,
        (line * rec.line_bases + col) % rec.line_bases as int == col,
        rec.phys(line * rec.line_bases + col) == rec.line_address(line, col),
{
    let lb = rec.line_bases as int;
    lemma_fundamental_div_mod_converse(line * lb + col, lb, line, col);
}

/// Addresses grow with logical position.
pub proof fn lemma_phys_monotone(rec: IndexRecord, p: int, q: int)
    requires
        rec.wf(),
        0 <= p <= q,
    ensures
        rec.phys(p) <= rec.phys(q),
{
    let lb = rec.line_bases as int;
    let lby = rec.line_bytes as int;
    lemma_div_is_ordered(p, q, lb);
    lemma_fundamental_div_mod(p, lb);
    lemma_fundamental_div_mod(q, lb);
    if p / lb < q / lb {
        lemma_mul_inequality(p / lb + 1, q / lb, lby);
        assert((p / lb + 1) * lby == (p / lb) * lby + lby) by (nonlinear_arith);
    } else {
        assert(p / lb == q / lb);
        assert(lb * (p / lb) == lb * (q / lb));
    }
}

/// No logical position lands on a line terminator: each base's address lies
/// within the bases of its line.
pub proof fn lemma_no_terminator(rec: IndexRecord, p: int)
    requires
        rec.wf(),
        0 <= p < rec.len,
    ensures
        (rec.phys(p) - rec.offset) % (rec.line_bytes as int) == p % (rec.line_bases as int),
        (rec.phys(p) - rec.offset) % (rec.line_bytes as int) < rec.line_bases,
{
    let lb = rec.line_bases as int;
    let lby = rec.line_bytes as int;
    lemma_fundamental_div_mod(p, lb);
    assert(p / lb >= 0) by (nonlinear_arith)
        requires p >= 0, lb > 0;
    lemma_fundamental_div_mod_converse(rec.phys(p) - rec.offset, lby, p / lb, p % lb);
}

} // verus!
