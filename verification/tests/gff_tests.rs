use gff::decode_line;
use gff::decode_lines;
use gff::encode_line;
use gff::GffError;
use gff::Record;
use gff::Strand;

const GFF_FILE: &str = "P0A7B8\tUniProtKB\tInitiator methionine\t1\t1\t.\t.\t.\tNote=Removed;ID=test
P0A7B8\tUniProtKB\tChain\t2\t176\t50\t+\t.\tNote=ATP-dependent protease subunit HslV;ID=PRO_0000148105
";

const GFF_FILE_NO_ATTRIB: &str = "P0A7B8\tUniProtKB\tInitiator methionine\t1\t1\t.\t.\t.\t
P0A7B8\tUniProtKB\tChain\t2\t176\t50\t+\t.\t
";

#[test]
fn test_reader() {
    let seqname = ["P0A7B8", "P0A7B8"];
    let source = ["UniProtKB", "UniProtKB"];
    let feature_type = ["Initiator methionine", "Chain"];
    let starts = [1u64, 2];
    let ends = [1u64, 176];
    let scores = [None, Some(50u64)];
    let strand = [None, Some(Strand::Forward)];
    let frame = [".", "."];
    let attributes = [
        [("ID", "test"), ("Note", "Removed")],
        [("ID", "PRO_0000148105"), ("Note", "ATP-dependent protease subunit HslV")],
    ];

    for (i, r) in decode_lines(GFF_FILE).into_iter().enumerate() {
        let record = r.ok().expect("Error reading record");
        assert_eq!(record.seqname(), seqname[i]);
        assert_eq!(record.source(), source[i]);
        assert_eq!(record.feature_type(), feature_type[i]);
        assert_eq!(*record.start(), starts[i]);
        assert_eq!(*record.end(), ends[i]);
        assert_eq!(record.score(), scores[i]);
        assert_eq!(record.strand(), strand[i]);
        assert_eq!(record.frame(), frame[i]);
        assert_eq!(record.attributes().len(), attributes[i].len());
        for (key, value) in attributes[i].iter() {
            assert_eq!(record.attribute(key).map(|v| v.as_str()), Some(*value));
        }
    }
}

#[test]
fn test_writer() {
    let mut out = String::new();
    for r in decode_lines(GFF_FILE_NO_ATTRIB) {
        let record = r.ok().expect("Error reading record");
        out.push_str(&encode_line(&record));
        out.push('\n');
    }
    assert_eq!(out, GFF_FILE_NO_ATTRIB);
}

#[test]
fn score_placeholder_is_none() {
    let record = Record::new();
    assert_eq!(record.score(), None);
}

#[test]
fn score_number_is_parsed() {
    let mut record = Record::new();
    *record.score_mut() = String::from("50");
    assert_eq!(record.score(), Some(50));
}

#[test]
fn score_malformed_is_none() {
    let mut record = Record::new();
    *record.score_mut() = String::from("abc");
    assert_eq!(record.score(), None);
}

#[test]
fn score_overflow_is_none() {
    let mut record = Record::new();
    *record.score_mut() = String::from("18446744073709551615");
    assert_eq!(record.score(), Some(u64::MAX));
    *record.score_mut() = String::from("18446744073709551616");
    assert_eq!(record.score(), None);
}

#[test]
fn score_signed_is_none() {
    let mut record = Record::new();
    *record.score_mut() = String::from("+50");
    assert_eq!(record.score(), None);
}

#[test]
fn strand_decoding() {
    let mut record = Record::new();
    *record.strand_mut() = String::from("+");
    assert_eq!(record.strand(), Some(Strand::Forward));
    *record.strand_mut() = String::from("-");
    assert_eq!(record.strand(), Some(Strand::Reverse));
    *record.strand_mut() = String::from(".");
    assert_eq!(record.strand(), None);
    *record.strand_mut() = String::from("?");
    assert_eq!(record.strand(), None);
    *record.strand_mut() = String::from("");
    assert_eq!(record.strand(), None);
}

#[test]
fn new_record_is_placeholder() {
    let record = Record::new();
    assert_eq!(record.seqname(), "");
    assert_eq!(record.source(), "");
    assert_eq!(record.feature_type(), "");
    assert_eq!(*record.start(), 0);
    assert_eq!(*record.end(), 0);
    assert_eq!(record.score(), None);
    assert_eq!(record.strand(), None);
    assert_eq!(record.frame(), "");
    assert!(record.attributes().is_empty());
}

#[test]
fn attribute_column_parsing() {
    let attrs = gff::parse_attributes("Note=Removed;ID=test").expect("attributes decode");
    assert_eq!(attrs.len(), 2);
    assert_eq!(attrs[0], (String::from("Note"), String::from("Removed")));
    assert_eq!(attrs[1], (String::from("ID"), String::from("test")));

    let empty = gff::parse_attributes("").expect("empty attributes decode");
    assert!(empty.is_empty());
}

#[test]
fn attribute_column_encoding() {
    let empty: Vec<(String, String)> = Vec::new();
    assert_eq!(gff::encode_attributes(&empty), "");

    let one = vec![(String::from("ID"), String::from("PRO_1"))];
    assert_eq!(gff::encode_attributes(&one), "ID=PRO_1");
}

#[test]
fn attribute_repeated_key_keeps_last_value() {
    let attrs = gff::parse_attributes("Note=a;ID=x;Note=b").expect("attributes decode");
    assert_eq!(attrs.len(), 2);
    assert_eq!(attrs[0], (String::from("Note"), String::from("b")));
    assert_eq!(attrs[1], (String::from("ID"), String::from("x")));
}

#[test]
fn attribute_segment_without_equals_fails() {
    assert_eq!(gff::parse_attributes("Note"), Err(GffError::BadAttributePair));
    assert_eq!(gff::parse_attributes("Note=a;ID"), Err(GffError::BadAttributePair));
    assert_eq!(gff::parse_attributes("a=b=c"), Err(GffError::BadAttributePair));
}

#[test]
fn multi_line_stream() {
    let input = "chr1\ttest\tgene\t100\t200\t.\t+\t.\tID=gene1\nP0A7B8\tUniProtKB\tChain\t2\t176\t50\t+\t.\tID=x";
    let results = decode_lines(input);
    assert_eq!(results.len(), 2);

    let first = results[0].as_ref().ok().expect("first record decodes");
    assert_eq!(first.seqname(), "chr1");
    assert_eq!(*first.start(), 100);
    assert_eq!(*first.end(), 200);

    let second = results[1].as_ref().ok().expect("second record decodes");
    assert_eq!(second.seqname(), "P0A7B8");
    assert_eq!(*second.start(), 2);
    assert_eq!(*second.end(), 176);
    assert_eq!(second.score(), Some(50));
    assert_eq!(second.strand(), Some(Strand::Forward));
}

#[test]
fn malformed_start_is_per_line_error() {
    let input = "chr1\ttest\tgene\tabc\t200\t.\t+\t.\tID=gene1";
    assert_eq!(decode_line(input).err(), Some(GffError::BadCoordinate));

    let stream = format!("{}\nchr1\ttest\tgene\t100\t200\t.\t+\t.\tID=gene1", input);
    let results = decode_lines(&stream);
    assert_eq!(results.len(), 2);
    assert!(results[0].is_err());
    assert!(results[1].is_ok());
}

#[test]
fn wrong_column_count_fails() {
    assert_eq!(
        decode_line("chr1\ttest\tgene\t100\t200\t.\t+\t.").err(),
        Some(GffError::MissingColumns)
    );
    assert_eq!(
        decode_line("chr1\ttest\tgene\t100\t200\t.\t+\t.\tID=x\textra").err(),
        Some(GffError::MissingColumns)
    );
}

#[test]
fn leading_zeros_parse() {
    let record = decode_line("chr1\ttest\tgene\t007\t0200\t.\t+\t.\t").expect("line decodes");
    assert_eq!(*record.start(), 7);
    assert_eq!(*record.end(), 200);
}

#[test]
fn empty_attribute_line_reencodes_exactly() {
    let line = "P0A7B8\tUniProtKB\tInitiator methionine\t1\t1\t.\t.\t.\t";
    let record = decode_line(line).expect("line decodes");
    assert!(record.attributes().is_empty());
    assert_eq!(encode_line(&record), line);
}

#[test]
fn round_trip_of_built_record() {
    let mut record = Record::new();
    *record.seqname_mut() = String::from("chrX");
    *record.source_mut() = String::from("prog");
    *record.feature_type_mut() = String::from("exon");
    *record.start_mut() = 12;
    *record.end_mut() = 34;
    *record.score_mut() = String::from("990");
    *record.strand_mut() = String::from("-");
    record
        .attributes_mut()
        .push((String::from("ID"), String::from("e1")));
    record
        .attributes_mut()
        .push((String::from("Note"), String::from("first exon")));

    let line = encode_line(&record);
    assert_eq!(line, "chrX\tprog\texon\t12\t34\t990\t-\t\tID=e1;Note=first exon");

    let back = decode_line(&line).expect("written line decodes");
    assert_eq!(back.seqname(), record.seqname());
    assert_eq!(back.source(), record.source());
    assert_eq!(back.feature_type(), record.feature_type());
    assert_eq!(*back.start(), *record.start());
    assert_eq!(*back.end(), *record.end());
    assert_eq!(back.score(), record.score());
    assert_eq!(back.strand(), record.strand());
    assert_eq!(back.frame(), record.frame());
    assert_eq!(back.attributes(), record.attributes());
}

#[test]
fn number_formatting_is_exact() {
    assert_eq!(gff::u64_to_string(0), "0");
    assert_eq!(gff::u64_to_string(7), "7");
    assert_eq!(gff::u64_to_string(1000), "1000");
    assert_eq!(gff::u64_to_string(u64::MAX), "18446744073709551615");
}

#[test]
fn number_parsing_is_exact() {
    assert_eq!(gff::parse_u64("0"), Some(0));
    assert_eq!(gff::parse_u64("176"), Some(176));
    assert_eq!(gff::parse_u64(""), None);
    assert_eq!(gff::parse_u64("12a"), None);
    assert_eq!(gff::parse_u64("-1"), None);
}

#[test]
fn trailing_newline_not_required() {
    let without = "chr1\ttest\tgene\t1\t2\t.\t+\t.\t";
    assert_eq!(decode_lines(without).len(), 1);
    let with = "chr1\ttest\tgene\t1\t2\t.\t+\t.\t\n";
    assert_eq!(decode_lines(with).len(), 1);
    assert_eq!(decode_lines("").len(), 0);
}

#[test]
fn stream_round_trip() {
    let records: Vec<Record> = decode_lines(GFF_FILE)
        .into_iter()
        .map(|r| r.ok().expect("Error reading record"))
        .collect();
    assert_eq!(records.len(), 2);
    let out = gff::encode_lines(&records);
    assert_eq!(out, GFF_FILE);
}
