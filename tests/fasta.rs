use fasta_index::index::{parse_decimal, Index, IndexError};
use fasta_index::layout::{buffer_size, chunk_step, range_start, ChunkStep, IndexRecord};
use std::io::{Cursor, Read, Seek, SeekFrom};
use fasta_index::reader::IndexedReader;
use fasta_index::record::{Reader, Record, Writer};
use fasta_index::source::ReadError;

const FASTA_FILE: &[u8] = b">id desc
ACCGTAGGCTGA
CCGTAGGCTGAA
CGTAGGCTGAAA
GTAGGCTGAAAA
CCCC
>id2
ATTGTTGTTTTA
ATTGTTGTTTTA
ATTGTTGTTTTA
GGGG
";
const FAI_FILE: &[u8] = b"id\t52\t9\t12\t13
id2\t40\t71\t12\t13
";

const FASTA_FILE_CRLF: &[u8] = b">id desc\r
ACCGTAGGCTGA\r
CCGTAGGCTGAA\r
CGTAGGCTGAAA\r
GTAGGCTGAAAA\r
CCCC\r
>id2\r
ATTGTTGTTTTA\r
ATTGTTGTTTTA\r
ATTGTTGTTTTA\r
GGGG\r
";
const FAI_FILE_CRLF: &[u8] = b"id\t52\t10\t12\t14\r
id2\t40\t78\t12\t14\r
";

const FASTA_FILE_NO_TRAILING_LF: &[u8] = b">id desc
GTAGGCTGAAAA
CCCC";
const FAI_FILE_NO_TRAILING_LF: &[u8] = b"id\t16\t9\t12\t13";

const WRITE_FASTA_FILE: &[u8] = b">id desc
ACCGTAGGCTGA
>id2
ATTGTTGTTTTA
";

const ID_SEQ: &[u8] = b"ACCGTAGGCTGACCGTAGGCTGAACGTAGGCTGAAAGTAGGCTGAAAACCCC";
const ID2_SEQ: &[u8] = b"ATTGTTGTTTTAATTGTTGTTTTAATTGTTGTTTTAGGGG";

fn check_indexed_reader(reader: &mut IndexedReader) {
    let mut seq = Vec::new();

    reader.read("id", 1, 5, &mut seq).unwrap();
    assert_eq!(seq, b"CCGT");

    reader.read("id", 1, 31, &mut seq).unwrap();
    assert_eq!(seq, b"CCGTAGGCTGACCGTAGGCTGAACGTAGGC");

    reader.read("id", 13, 23, &mut seq).unwrap();
    assert_eq!(seq, b"CGTAGGCTGA");

    reader.read("id", 36, 52, &mut seq).unwrap();
    assert_eq!(seq, b"GTAGGCTGAAAACCCC");

    reader.read("id2", 12, 40, &mut seq).unwrap();
    assert_eq!(seq, b"ATTGTTGTTTTAATTGTTGTTTTAGGGG");

    reader.read("id2", 12, 12, &mut seq).unwrap();
    assert_eq!(seq, b"");

    reader.read("id2", 12, 13, &mut seq).unwrap();
    assert_eq!(seq, b"A");

    assert!(reader.read("id2", 12, 11, &mut seq).is_err());
    assert!(reader.read("id2", 12, 1000, &mut seq).is_err());
    assert!(reader.read("id3", 0, 1, &mut seq).is_err());
}

#[test]
fn test_indexed_reader() {
    let mut reader = IndexedReader::new(FASTA_FILE.to_vec(), FAI_FILE).unwrap();
    check_indexed_reader(&mut reader)
}

#[test]
fn test_indexed_reader_crlf() {
    let mut reader = IndexedReader::new(FASTA_FILE_CRLF.to_vec(), FAI_FILE_CRLF).unwrap();
    check_indexed_reader(&mut reader)
}

#[test]
fn test_indexed_reader_no_trailing_lf() {
    let mut reader =
        IndexedReader::new(FASTA_FILE_NO_TRAILING_LF.to_vec(), FAI_FILE_NO_TRAILING_LF).unwrap();
    let mut seq = Vec::new();

    reader.read("id", 0, 16, &mut seq).unwrap();
    assert_eq!(seq, b"GTAGGCTGAAAACCCC");
}

#[test]
fn test_reader() {
    let reader = Reader::new(FASTA_FILE.to_vec());
    let ids: [Option<&[u8]>; 2] = [Some(b"id"), Some(b"id2")];
    let descs: [Option<&[u8]>; 2] = [Some(b"desc"), None];
    let seqs: [&[u8]; 2] = [ID_SEQ, ID2_SEQ];

    let mut records = reader.records();
    let mut i = 0;
    while let Some(r) = records.next() {
        let record = r.ok().expect("Error reading record");
        assert_eq!(record.check(), Ok(()));
        assert_eq!(record.id(), ids[i]);
        assert_eq!(record.desc(), descs[i]);
        assert_eq!(record.seq(), seqs[i]);
        i += 1;
    }
    assert_eq!(i, 2);
}

#[test]
fn test_writer() {
    let mut writer = Writer::new(Vec::new());
    writer.write("id", Some("desc"), b"ACCGTAGGCTGA");
    writer.write("id2", None, b"ATTGTTGTTTTA");
    writer.flush();
    assert_eq!(writer.get_ref().as_slice(), WRITE_FASTA_FILE);
}

fn collect_lazy(reader: IndexedReader, name: &str, start: u64, stop: u64) -> (IndexedReader, Vec<u8>) {
    let mut it = match reader.read_iter(name, start, stop) {
        Ok(it) => it,
        Err((_, e)) => panic!("lazy read refused: {:?}", e),
    };
    let mut out = Vec::new();
    while let Some(b) = it.next() {
        out.push(b.unwrap());
    }
    (it.into_reader(), out)
}

#[test]
fn lazy_read_matches_eager_read() {
    for (fasta, fai) in [(FASTA_FILE, FAI_FILE), (FASTA_FILE_CRLF, FAI_FILE_CRLF)] {
        let mut reader = IndexedReader::new(fasta.to_vec(), fai).unwrap();
        for (name, len) in [("id", 52u64), ("id2", 40u64)] {
            for start in 0..=len {
                for stop in start..=len {
                    let mut eager = Vec::new();
                    reader.read(name, start, stop, &mut eager).unwrap();
                    let (back, lazy) = collect_lazy(reader, name, start, stop);
                    reader = back;
                    assert_eq!(lazy, eager);
                }
            }
        }
    }
}

#[test]
fn range_is_slice_of_whole_record() {
    for (fasta, fai) in [(FASTA_FILE, FAI_FILE), (FASTA_FILE_CRLF, FAI_FILE_CRLF)] {
        let mut reader = IndexedReader::new(fasta.to_vec(), fai).unwrap();
        let mut whole = Vec::new();
        reader.read_all("id", &mut whole).unwrap();
        assert_eq!(whole, ID_SEQ);
        reader.read_all("id2", &mut whole).unwrap();
        assert_eq!(whole, ID2_SEQ);
        let mut part = Vec::new();
        for start in 0..=52u64 {
            for stop in start..=52u64 {
                reader.read("id", start, stop, &mut part).unwrap();
                assert_eq!(part.as_slice(), &ID_SEQ[start as usize..stop as usize]);
            }
        }
    }
}

#[test]
fn output_holds_no_line_terminator() {
    let mut reader = IndexedReader::new(FASTA_FILE_CRLF.to_vec(), FAI_FILE_CRLF).unwrap();
    let mut seq = Vec::new();
    reader.read("id", 5, 50, &mut seq).unwrap();
    assert!(!seq.contains(&b'\n') && !seq.contains(&b'\r'));
    reader.read_all("id2", &mut seq).unwrap();
    assert!(!seq.contains(&b'\n') && !seq.contains(&b'\r'));
}

#[test]
fn empty_ranges_read_as_nothing() {
    let mut reader = IndexedReader::new(FASTA_FILE.to_vec(), FAI_FILE).unwrap();
    let mut seq = b"left over".to_vec();
    for k in 0..=52u64 {
        reader.read("id", k, k, &mut seq).unwrap();
        assert!(seq.is_empty());
    }
    let (_, lazy) = collect_lazy(reader, "id", 52, 52);
    assert!(lazy.is_empty());
}

#[test]
fn range_errors_at_the_edges() {
    let mut reader = IndexedReader::new(FASTA_FILE.to_vec(), FAI_FILE).unwrap();
    let mut seq = b"kept".to_vec();
    assert_eq!(reader.read("id", 0, 53, &mut seq), Err(ReadError::OutOfBounds));
    assert_eq!(reader.read("id", 5, 4, &mut seq), Err(ReadError::InvalidRange));
    assert_eq!(reader.read("id3", 0, 1, &mut seq), Err(ReadError::UnknownSequence));
    assert_eq!(reader.read_all("id3", &mut seq), Err(ReadError::UnknownSequence));
    assert_eq!(seq, b"kept");
    assert_eq!(reader.read("id", 0, 52, &mut seq), Ok(()));
    assert_eq!(seq, ID_SEQ);
    assert_eq!(reader.read("id2", 12, 1000, &mut seq), Err(ReadError::OutOfBounds));
    match reader.read_iter("id", 0, 53) {
        Err((back, e)) => {
            assert_eq!(e, ReadError::OutOfBounds);
            reader = back;
        }
        Ok(_) => panic!("range past the end accepted"),
    }
    match reader.read_iter("nope", 0, 1) {
        Err((_, e)) => assert_eq!(e, ReadError::UnknownSequence),
        Ok(_) => panic!("unknown name accepted"),
    }
}

#[test]
fn short_data_is_reported() {
    let mut reader = IndexedReader::new(FASTA_FILE[..40].to_vec(), FAI_FILE).unwrap();
    let mut seq = Vec::new();
    assert_eq!(reader.read("id", 0, 10, &mut seq), Ok(()));
    assert_eq!(seq, b"ACCGTAGGCT");
    assert_eq!(reader.read("id", 0, 40, &mut seq), Err(ReadError::UnexpectedEndOfData));
    assert!(seq.len() < 40);
    assert_eq!(seq.as_slice(), &ID_SEQ[..seq.len()]);
    assert_eq!(reader.read("id2", 0, 1, &mut seq), Err(ReadError::UnexpectedEndOfData));
    let mut it = reader.read_iter_all("id2").ok().unwrap();
    assert_eq!(it.size_hint(), 40);
    assert_eq!(it.next(), Some(Err(ReadError::UnexpectedEndOfData)));
}

#[test]
fn lazy_reader_hands_reader_back() {
    let reader = IndexedReader::new(FASTA_FILE.to_vec(), FAI_FILE).unwrap();
    let mut it = reader.read_iter_all("id2").ok().unwrap();
    assert_eq!(it.size_hint(), 40);
    assert_eq!(it.next(), Some(Ok(b'A')));
    assert_eq!(it.next(), Some(Ok(b'T')));
    assert_eq!(it.size_hint(), 38);
    let mut reader = it.into_reader();
    let mut seq = Vec::new();
    reader.read("id", 48, 52, &mut seq).unwrap();
    assert_eq!(seq, b"CCCC");
}

#[test]
fn end_to_end_scenario() {
    for (fasta, fai) in [(FASTA_FILE, FAI_FILE), (FASTA_FILE_CRLF, FAI_FILE_CRLF)] {
        let mut reader = IndexedReader::new(fasta.to_vec(), fai).unwrap();
        let mut seq = Vec::new();
        reader.read("id", 1, 5, &mut seq).unwrap();
        assert_eq!(seq.as_slice(), &ID_SEQ[1..5]);
        reader.read("id", 36, 52, &mut seq).unwrap();
        assert_eq!(seq.as_slice(), &ID_SEQ[36..52]);
        reader.read("id2", 12, 12, &mut seq).unwrap();
        assert!(seq.is_empty());
        assert_eq!(reader.read("id2", 12, 1000, &mut seq), Err(ReadError::OutOfBounds));
        assert_eq!(reader.read("id3", 0, 1, &mut seq), Err(ReadError::UnknownSequence));
    }
}

#[test]
fn index_lists_sequences_in_order() {
    let index = Index::new(FAI_FILE_CRLF).unwrap();
    let seqs = index.sequences();
    assert_eq!(seqs.len(), 2);
    assert_eq!(seqs[0].name, "id");
    assert_eq!(seqs[0].len, 52);
    assert_eq!(seqs[1].name, "id2");
    assert_eq!(seqs[1].len, 40);
    assert_eq!(index.get("id2"), Some(IndexRecord::new(40, 78, 12, 14)));
    assert_eq!(index.get("id3"), None);
}

#[test]
fn index_rejects_bad_rows() {
    assert_eq!(Index::new(b"id\t52\t9\t12").err(), Some(IndexError::MalformedRow));
    assert_eq!(Index::new(b"id\t52\t9\tx\t13\n").err(), Some(IndexError::MalformedRow));
    assert_eq!(Index::new(b"id\t52\t9\t0\t13\n").err(), Some(IndexError::MalformedRow));
    assert_eq!(Index::new(b"id\t52\t9\t14\t13\n").err(), Some(IndexError::MalformedRow));
    assert_eq!(
        Index::new(b"id\t52\t9\t12\t13\nid\t40\t71\t12\t13\n").err(),
        Some(IndexError::DuplicateName)
    );
    assert_eq!(Index::new(b"id\t52\t9\t12\t13\nid2\t40\n").err(), Some(IndexError::Unreadable));
    assert!(Index::new(b"").unwrap().sequences().is_empty());
}

#[test]
fn decimal_fields() {
    assert_eq!(parse_decimal("0"), Some(0));
    assert_eq!(parse_decimal("18446744073709551615"), Some(u64::MAX));
    assert_eq!(parse_decimal("18446744073709551616"), None);
    assert_eq!(parse_decimal(""), None);
    assert_eq!(parse_decimal("1 2"), None);
    assert_eq!(parse_decimal("-1"), None);
}

#[test]
fn layout_arithmetic() {
    let rec = IndexRecord::new(52, 9, 12, 13);
    assert!(rec.is_valid());
    assert_eq!(rec.start_position(0), (9, 0));
    assert_eq!(rec.start_position(13), (9 + 13 + 1, 1));
    assert_eq!(rec.start_position(52), (9 + 4 * 13 + 4, 4));
    assert!(!IndexRecord::new(5, 0, 0, 1).is_valid());
    assert!(!IndexRecord::new(u64::MAX, u64::MAX, 1, 1).is_valid());
    assert_eq!(buffer_size(&rec, 100, 0), 13);
    assert_eq!(buffer_size(&rec, 4, 1), 4);
    assert_eq!(buffer_size(&rec, 12, 1), 12);
    assert_eq!(buffer_size(&IndexRecord::new(52, 9, 12, 14), 13, 0), 14);
    assert_eq!(buffer_size(&IndexRecord::new(5000, 0, 1000, 1001), 5000, 0), 512);
}

#[test]
fn record_parts() {
    let mut record = Record::new();
    assert!(record.is_empty());
    assert_eq!(record.id(), None);
    assert!(record.check().is_err());
    record.set_header(b">chr1 first one\r\n");
    record.push_seq_line(b"ACGT\r\n");
    record.push_seq_line(b"GG\n");
    assert_eq!(record.id(), Some(&b"chr1"[..]));
    assert_eq!(record.desc(), Some(&b"first one"[..]));
    assert_eq!(record.seq(), b"ACGTGG");
    assert_eq!(record.check(), Ok(()));
    record.push_seq_line(&[0xc3, 0xa9]);
    assert!(record.check().is_err());
    record.clear();
    assert!(record.is_empty());
}

#[test]
fn reader_rejects_missing_header() {
    let mut reader = Reader::new(b"ACGT\n>x\nA\n".to_vec());
    let mut record = Record::new();
    assert_eq!(reader.read(&mut record), Err(fasta_index::record::FormatError::MissingHeader));
}

#[test]
fn writer_round_trips_records() {
    let mut writer = Writer::new(Vec::new());
    let mut records = Reader::new(FASTA_FILE.to_vec()).records();
    while let Some(r) = records.next() {
        writer.write_record(&r.unwrap());
    }
    let out = writer.into_inner();
    assert_eq!(
        out,
        [b">id desc\n".as_ref(), ID_SEQ, b"\n>id2\n", ID2_SEQ, b"\n"].concat()
    );
}

#[test]
fn chunk_steps_follow_line_layout() {
    let rec = IndexRecord::new(52, 10, 12, 14);
    // mid-line, range continues past the line: rest of line with terminator, bases kept
    assert_eq!(chunk_step(&rec, 3, 20, 14), ChunkStep { read: 11, keep: 9, next_offset: 0 });
    // range ends inside the line
    assert_eq!(chunk_step(&rec, 3, 4, 14), ChunkStep { read: 4, keep: 4, next_offset: 7 });
    // buffer smaller than the rest of the line
    assert_eq!(chunk_step(&rec, 0, 30, 5), ChunkStep { read: 5, keep: 5, next_offset: 5 });
    // only terminator bytes left on the line: read them, keep nothing
    assert_eq!(chunk_step(&rec, 12, 5, 14), ChunkStep { read: 2, keep: 0, next_offset: 0 });
    assert_eq!(chunk_step(&rec, 12, 5, 1), ChunkStep { read: 1, keep: 0, next_offset: 13 });
    assert_eq!(range_start(&rec, 13, 20), Ok((10 + 14 + 1, 1, 7)));
    assert_eq!(range_start(&rec, 0, 53), Err(ReadError::OutOfBounds));
    assert_eq!(range_start(&rec, 5, 4), Err(ReadError::InvalidRange));
}

fn stream_read(data: &[u8], rec: &IndexRecord, start: u64, stop: u64) -> (Vec<u8>, usize) {
    let mut src = Cursor::new(data);
    let (addr, mut col, size) = range_start(rec, start, stop).unwrap();
    src.seek(SeekFrom::Start(addr)).unwrap();
    let mut buf = vec![0u8; size];
    let mut left = stop - start;
    let mut out = Vec::new();
    let mut reads = 0;
    while left > 0 {
        let step = chunk_step(rec, col, left, buf.len() as u64);
        src.read_exact(&mut buf[..step.read as usize]).unwrap();
        reads += 1;
        out.extend_from_slice(&buf[..step.keep as usize]);
        left -= step.keep;
        col = step.next_offset;
    }
    (out, reads)
}

#[test]
fn chunk_steps_read_ranges_from_a_seekable_source() {
    for (fasta, rec) in [
        (FASTA_FILE, IndexRecord::new(52, 9, 12, 13)),
        (FASTA_FILE_CRLF, IndexRecord::new(52, 10, 12, 14)),
    ] {
        for start in 0..=52u64 {
            for stop in start..=52u64 {
                let (out, reads) = stream_read(fasta, &rec, start, stop);
                assert_eq!(out.as_slice(), &ID_SEQ[start as usize..stop as usize]);
                let lines = if start == stop { 0 } else { ((stop - 1) / 12 - start / 12 + 1) as usize };
                assert_eq!(reads, lines);
            }
        }
    }
}
