use fastq_pair::io::has_record;
use fastq_pair::seek::{get_next_header, index_fastq, index_offsets};
use fastq_pair::store_read::index_read;
use fastq_pair::{
    convert_to_fastq, finalize, is_gzipped, iter_both, parse_header, parse_read, seek,
    store_read, trim_header, PairError, Read, Scan, Source,
};
use std::collections::HashMap;

const SEQ1: &str = "ATTGTNTTATTCTATAAAACATTTCAAACCTAGTTAGAGATTTGTAATCAAAAAACATTTGCGCAGAAAGCAGCACTTAGGGCTGCCTGTTCTATACCCTA";
const QUAL1: &str = "@@@DD#4AFHHHHJJJJIJJJJJJJJJJJJIIJHGJJIJJJIJJGHGIIJJJJIJJJJJJJJIJJHHHFFFFFEEEEEDDDDDDDDDDDCCDEEEFDCDDC";

/// A 101-base sequence and quality line that differ by read number.
fn seq_of(n: usize) -> String {
    if n == 1 {
        return SEQ1.to_string();
    }
    let s: String = SEQ1.chars().cycle().skip(n * 7).take(101).collect();
    s
}

fn qual_of(n: usize) -> String {
    if n == 1 {
        return QUAL1.to_string();
    }
    let s: String = QUAL1.chars().cycle().skip(n * 5).take(101).collect();
    s
}

/// One NCBI-style record of read `n`, mate `mate`: 262 characters.
fn ncbi_record(n: usize, mate: usize) -> String {
    format!(
        "@SRR3380692.{n}.{mate} {n} length=101\n{}\n+SRR3380692.{n}.{mate} {n} length=101\n{}\n",
        seq_of(n),
        qual_of(n)
    )
}

fn ncbi_text(reads: &[usize], mate: usize) -> String {
    reads.iter().map(|n| ncbi_record(*n, mate)).collect()
}

/// The record written for read `n` of mate `mate`.
fn written(n: usize, mate: usize) -> String {
    format!("@SRR3380692.{n}.{mate}\n{}\n+\n{}\n", seq_of(n), qual_of(n))
}

fn written_text(reads: &[usize], mate: usize) -> String {
    reads.iter().map(|n| written(*n, mate)).collect()
}

fn shuffled1() -> String {
    ncbi_text(&[3, 2, 1, 4, 9], 1)
}

fn shuffled2() -> String {
    ncbi_text(&[2, 4, 1, 7, 3], 2)
}

/// A small record with header `@{key}.{mate}`.
fn small(key: &str, mate: usize) -> String {
    format!("@{key}.{mate} x\nACGT\n+\nIIII\n")
}

/// The keys of the records of a written text, in order.
fn keys_of(text: &str) -> Vec<String> {
    let mut src = Source::new(text);
    let mut keys = Vec::new();
    while let Some(read) = parse_read(&mut src) {
        keys.push(parse_header(&read.header).unwrap());
    }
    keys
}

fn sorted(mut v: Vec<String>) -> Vec<String> {
    v.sort();
    v
}

#[test]
fn test_parse_header() {
    let header = "@foo:bar:UUID.1 extra:stuff";
    assert_eq!("@foo:bar:UUID".to_string(), parse_header(header).unwrap());
}

#[test]
fn test_parse_read() {
    let text = ncbi_text(&[1, 2], 1);
    let mut reader = Source::new(&text);
    let header = "@SRR3380692.1.1 1 length=101\n";
    let seq = "ATTGTNTTATTCTATAAAACATTTCAAACCTAGTTAGAGATTTGTAATCAAA\
                AAACATTTGCGCAGAAAGCAGCACTTAGGGCTGCCTGTTCTATACCCTA\n";
    let qscore = "@@@DD#4AFHHHHJJJJIJJJJJJJJJJJJIIJHGJJIJJJIJJGHGIIJ\
                JJJIJJJJJJJJIJJHHHFFFFFEEEEEDDDDDDDDDDDCCDEEEFDCDDC\n";
    let read = parse_read(&mut reader).unwrap();
    assert_eq!(header.to_string(), read.header);
    assert_eq!(seq.to_string(), read.seq);
    assert_eq!(qscore.to_string(), read.qscore);
}

#[test]
fn test_index_fastq() {
    let fastq = shuffled1();
    let read_pos: HashMap<String, u64> =
        index_fastq(&mut Source::new(&fastq)).into_iter().collect();
    assert_eq!(
        read_pos,
        vec![
            ("@SRR3380692.3".to_string(), 0),
            ("@SRR3380692.2".to_string(), 262),
            ("@SRR3380692.1".to_string(), 524),
            ("@SRR3380692.4".to_string(), 786),
            ("@SRR3380692.9".to_string(), 1048),
        ]
        .into_iter()
        .collect()
    );
}

#[test]
fn test_store_read1() {
    let text = ncbi_text(&[1, 2, 3], 1);
    let map = index_read(&mut Source::new(&text)).unwrap();
    let read = &map.iter().find(|e| e.key == "@SRR3380692.1").unwrap().value;
    let seq = "ATTGTNTTATTCTATAAAACATTTCAAACCTAGTTAGAGATTTGTAATCAAA\
                AAACATTTGCGCAGAAAGCAGCACTTAGGGCTGCCTGTTCTATACCCTA\n";
    let qscore = "@@@DD#4AFHHHHJJJJIJJJJJJJJJJJJIIJHGJJIJJJIJJGHGIIJ\
                JJJIJJJJJJJJIJJHHHFFFFFEEEEEDDDDDDDDDDDCCDEEEFDCDDC\n";
    assert_eq!(seq.to_string(), read.seq);
    assert_eq!(qscore.to_string(), read.qscore);
}

#[test]
fn test_write_pairs() {
    let out = store_read::pair_fastqs(&shuffled1(), &shuffled2()).unwrap();
    // Every output has records.
    for text in [&out.paired1, &out.paired2, &out.singletons] {
        assert!(has_record(text));
    }
    // Each header in each paired text matches its mate.
    let mut reader1 = Source::new(&out.paired1);
    let mut reader2 = Source::new(&out.paired2);
    for _ in 0..4 {
        let r1 = parse_read(&mut reader1).unwrap();
        let r2 = parse_read(&mut reader2).unwrap();
        assert_eq!(parse_header(&r1.header).unwrap(), parse_header(&r2.header).unwrap());
    }
}

#[test]
fn iter_both_test_pair_fastqs() {
    let out = iter_both::pair_fastqs(&shuffled1(), &shuffled2()).unwrap();
    for text in [&out.paired1, &out.paired2, &out.singletons] {
        assert!(has_record(text));
    }
    let mut reader1 = Source::new(&out.paired1);
    let mut reader2 = Source::new(&out.paired2);
    for _ in 0..4 {
        let r1 = parse_read(&mut reader1).unwrap();
        let r2 = parse_read(&mut reader2).unwrap();
        assert_eq!(parse_header(&r1.header).unwrap(), parse_header(&r2.header).unwrap());
    }
}

#[test]
fn seek_test_pair_fastqs() {
    let output = seek::pair_fastqs(&shuffled1(), &shuffled2()).expect("Pairing failed");
    assert_eq!(output.paired1, written_text(&[2, 4, 1, 3], 1));
    assert_eq!(output.paired2, written_text(&[2, 4, 1, 3], 2));
    assert_eq!(output.singletons, format!("{}{}", written(7, 2), written(9, 1)));
}

#[test]
fn read_new_is_empty() {
    let r = Read::new();
    assert_eq!(r.header, "");
    assert_eq!(r.seq, "");
    assert_eq!(r.qscore, "");
}

#[test]
fn record_without_final_newline_is_complete() {
    let mut src = Source::new("@a.1\nAC\n+\nII");
    let r = parse_read(&mut src).unwrap();
    assert_eq!(r.header, "@a.1\n");
    assert_eq!(r.seq, "AC\n");
    assert_eq!(r.qscore, "II");
    assert!(parse_read(&mut src).is_none());
}

#[test]
fn truncated_record_is_reported() {
    let mut src = Source::new("@a.1\nAC\n+\n");
    assert!(matches!(src.next_record(), Scan::Truncated));
    let mut empty = Source::new("");
    assert!(matches!(empty.next_record(), Scan::Eof));
    let mut src = Source::new("@a.1\nAC\n+\n");
    assert!(parse_read(&mut src).is_none());
}

#[test]
fn seek_and_tell_move_the_position() {
    let text = ncbi_text(&[5, 6], 1);
    let mut src = Source::new(&text);
    src.seek(262);
    assert_eq!(src.tell(), 262);
    let r = parse_read(&mut src).unwrap();
    assert_eq!(r.header, "@SRR3380692.6.1 6 length=101\n");
    assert_eq!(src.tell(), 524);
}

#[test]
fn parse_header_with_tabs_and_leading_space() {
    assert_eq!(parse_header("  @r7.2\tdesc").unwrap(), "@r7");
    assert_eq!(parse_header("@SRR3380692.1.1 1 length=101\n").unwrap(), "@SRR3380692.1");
}

#[test]
fn two_character_token_gives_empty_key() {
    assert_eq!(parse_header("@1").unwrap(), "");
    assert_eq!(parse_header("@1 rest\n").unwrap(), "");
}

#[test]
fn short_or_missing_token_is_malformed() {
    assert_eq!(parse_header("@").unwrap_err(), PairError::MalformedHeader);
    assert_eq!(parse_header("   \n").unwrap_err(), PairError::MalformedHeader);
    assert_eq!(parse_header("").unwrap_err(), PairError::MalformedHeader);
}

#[test]
fn trim_header_drops_marker_and_mate() {
    assert_eq!(trim_header("@SRR3380692.5.2 3 length=101"), Some("@SRR3380692.5".to_string()));
    assert_eq!(trim_header("@SRR3380692.5.2\n"), Some("@SRR3380692.5".to_string()));
    assert_eq!(trim_header("@"), None);
    let h = "@x:y.2\tdesc";
    assert_eq!(trim_header(h), parse_header(h).ok());
}

#[test]
fn get_next_header_skips_a_record() {
    let text = ncbi_text(&[8, 5], 2);
    let mut src = Source::new(&text);
    assert_eq!(get_next_header(&mut src), Some("@SRR3380692.8".to_string()));
    assert_eq!(src.tell(), 262);
    assert_eq!(get_next_header(&mut src), Some("@SRR3380692.5".to_string()));
    assert_eq!(src.tell(), 524);
    assert_eq!(get_next_header(&mut src), None);
    assert_eq!(src.tell(), 524);
}

#[test]
fn index_offsets_keeps_last_of_duplicates_in_place() {
    let text = format!("{}{}{}", small("A", 1), small("B", 1), small("A", 1));
    let idx = index_offsets(&mut Source::new(&text)).unwrap();
    let got: Vec<(String, usize)> = idx.iter().map(|e| (e.key.clone(), e.start)).collect();
    assert_eq!(got, vec![("@A".to_string(), 38), ("@B".to_string(), 19)]);
}

#[test]
fn keys_a_b_c_against_b_c_d() {
    let m1 = format!("{}{}{}", small("A", 1), small("B", 1), small("C", 1));
    let m2 = format!("{}{}{}", small("B", 2), small("C", 2), small("D", 2));
    for out in [
        store_read::pair_fastqs(&m1, &m2).unwrap(),
        seek::pair_fastqs(&m1, &m2).unwrap(),
        iter_both::pair_fastqs(&m1, &m2).unwrap(),
    ] {
        assert_eq!(keys_of(&out.paired1), vec!["@B", "@C"]);
        assert_eq!(keys_of(&out.paired2), vec!["@B", "@C"]);
        assert_eq!(sorted(keys_of(&out.singletons)), vec!["@A", "@D"]);
        let fin = finalize("R1".to_string(), "R2".to_string(), "S".to_string(), &out.singletons);
        assert_eq!(fin.singleton_path, Some("S".to_string()));
    }
    let out = store_read::pair_fastqs(&m1, &m2).unwrap();
    assert_eq!(out.singletons, "@D.2\nACGT\n+\nIIII\n@A.1\nACGT\n+\nIIII\n");
    assert_eq!(out.paired1, "@B.1\nACGT\n+\nIIII\n@C.1\nACGT\n+\nIIII\n");
}

#[test]
fn same_keys_in_other_order_leave_no_singletons() {
    let m1 = format!("{}{}{}", small("X", 1), small("Y", 1), small("Z", 1));
    let m2 = format!("{}{}{}", small("Z", 2), small("X", 2), small("Y", 2));
    for out in [
        store_read::pair_fastqs(&m1, &m2).unwrap(),
        seek::pair_fastqs(&m1, &m2).unwrap(),
        iter_both::pair_fastqs(&m1, &m2).unwrap(),
    ] {
        assert_eq!(sorted(keys_of(&out.paired1)), vec!["@X", "@Y", "@Z"]);
        assert_eq!(keys_of(&out.paired1), keys_of(&out.paired2));
        assert_eq!(out.singletons, "");
        let fin = finalize("R1".to_string(), "R2".to_string(), "S".to_string(), &out.singletons);
        assert_eq!(fin.singleton_path, None);
        assert_eq!(fin.r1_out_path, "R1");
        assert_eq!(fin.r2_out_path, "R2");
    }
}

#[test]
fn degenerate_key_pairs() {
    let m1 = "@1\nAC\n+\nII\n";
    let m2 = "@2\nGT\n+\nJJ\n";
    let out = store_read::pair_fastqs(m1, m2).unwrap();
    assert_eq!(out.paired1, ".1\nAC\n+\nII\n");
    assert_eq!(out.paired2, ".2\nGT\n+\nJJ\n");
    assert_eq!(out.singletons, "");
}

#[test]
fn pairs_and_singletons_partition_the_keys() {
    let m1 = shuffled1();
    let m2 = shuffled2();
    for out in [
        store_read::pair_fastqs(&m1, &m2).unwrap(),
        seek::pair_fastqs(&m1, &m2).unwrap(),
        iter_both::pair_fastqs(&m1, &m2).unwrap(),
    ] {
        let p1 = keys_of(&out.paired1);
        let p2 = keys_of(&out.paired2);
        let s = keys_of(&out.singletons);
        assert_eq!(p1, p2);
        assert!(s.iter().all(|k| !p1.contains(k)));
        let mut all: Vec<String> = p1.iter().chain(s.iter()).cloned().collect();
        all = sorted(all);
        let expected: Vec<String> = [1, 2, 3, 4, 7, 9]
            .iter()
            .map(|n| format!("@SRR3380692.{n}"))
            .collect();
        assert_eq!(all, sorted(expected));
        assert_eq!(p1.len() + p2.len() + s.len(), 10);
    }
}

#[test]
fn full_and_offset_index_agree() {
    let m1 = ncbi_text(&[5, 3, 8, 1, 3], 1);
    let m2 = ncbi_text(&[3, 6, 5, 2], 2);
    let a = store_read::pair_fastqs(&m1, &m2).unwrap();
    let b = seek::pair_fastqs(&m1, &m2).unwrap();
    assert_eq!(a.paired1, b.paired1);
    assert_eq!(a.paired2, b.paired2);
    assert_eq!(a.singletons, b.singletons);
}

#[test]
fn interleaved_gives_same_pairs() {
    let m1 = shuffled1();
    let m2 = shuffled2();
    let a = store_read::pair_fastqs(&m1, &m2).unwrap();
    let c = iter_both::pair_fastqs(&m1, &m2).unwrap();
    assert_eq!(sorted(keys_of(&a.paired1)), sorted(keys_of(&c.paired1)));
    assert_eq!(sorted(keys_of(&a.singletons)), sorted(keys_of(&c.singletons)));
    assert_eq!(c.paired1, written_text(&[2, 1, 4, 3], 1));
    assert_eq!(c.singletons, format!("{}{}", written(9, 1), written(7, 2)));
}

#[test]
fn rerun_gives_same_output() {
    let m1 = shuffled1();
    let m2 = shuffled2();
    let a = iter_both::pair_fastqs(&m1, &m2).unwrap();
    let b = iter_both::pair_fastqs(&m1, &m2).unwrap();
    assert_eq!(a.paired1, b.paired1);
    assert_eq!(a.paired2, b.paired2);
    assert_eq!(a.singletons, b.singletons);
    let c = seek::pair_fastqs(&m1, &m2).unwrap();
    let d = seek::pair_fastqs(&m1, &m2).unwrap();
    assert_eq!(c.singletons, d.singletons);
}

#[test]
fn errors_surface() {
    let good = small("A", 1);
    let bad_header = "@\nAC\n+\nII\n";
    let truncated = "@a.1\nAC\n";
    assert_eq!(store_read::pair_fastqs(bad_header, &good).unwrap_err(), PairError::MalformedHeader);
    assert_eq!(seek::pair_fastqs(&good, truncated).unwrap_err(), PairError::TruncatedRecord);
    assert_eq!(store_read::pair_fastqs(truncated, bad_header).unwrap_err(), PairError::TruncatedRecord);
    assert_eq!(iter_both::pair_fastqs(&good, bad_header).unwrap_err(), PairError::MalformedHeader);
}

#[test]
fn interleaved_reports_the_earlier_problem() {
    // Mate 1 fails at its second record, mate 2 at its first.
    let m1 = format!("{}@\nAC\n+\nII\n", small("A", 1));
    let m2 = "@b.2\nAC\n";
    assert_eq!(iter_both::pair_fastqs(&m1, m2).unwrap_err(), PairError::TruncatedRecord);
    // Full-index reads mate 1 first.
    assert_eq!(store_read::pair_fastqs(&m1, m2).unwrap_err(), PairError::MalformedHeader);
}

#[test]
fn gzip_paths() {
    assert!(is_gzipped("data/reads_1.fastq.gz"));
    assert!(!is_gzipped("data/reads_1.fastq"));
    assert!(!is_gzipped("data/.gz"));
    assert_eq!(convert_to_fastq("data/reads_1.fastq.gz"), "data/reads_1.fastq");
    assert_eq!(convert_to_fastq("data/reads_1.fastq"), "data/reads_1.fastq");
}

#[test]
fn empty_inputs_give_empty_outputs() {
    let out = iter_both::pair_fastqs("", "").unwrap();
    assert_eq!(out.paired1, "");
    assert_eq!(out.singletons, "");
    assert!(!has_record(""));
}

#[test]
fn read_renders_as_four_lines() {
    let mut src = Source::new("@a.1 d\nAC\n+a.1 d\nII");
    let r = parse_read(&mut src).unwrap();
    assert_eq!(r.to_fastq(), "@a.1 d\nAC\n+\nII\n");
    let mut src = Source::new(" @a.1 d \r\nAC\r\n+\r\n II\r\n");
    let r = parse_read(&mut src).unwrap();
    assert_eq!(r.to_fastq(), "@a.1 d\nAC\n+\nII\n");
}

#[test]
fn index_fastq_keys_unterminated_token() {
    let text = "@A.1\nC\n+\nI\n";
    let mut src = Source::new(text);
    assert_eq!(index_fastq(&mut src), vec![("@A".to_string(), 0)]);
    assert_eq!(src.tell(), text.len());
}

#[test]
fn indexing_ends_at_end_of_text() {
    let text = ncbi_text(&[1, 2], 1);
    let mut src = Source::new(&text);
    index_read(&mut src).unwrap();
    assert_eq!(src.tell(), 524);
    let mut src = Source::new(&text);
    index_offsets(&mut src).unwrap();
    assert_eq!(src.tell(), 524);
    assert!(parse_read(&mut src).is_none());
    assert_eq!(src.tell(), 524);
}
