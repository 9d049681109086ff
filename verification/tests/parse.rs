use gfa_reader::ParseMode;
use gfa_reader::graph::{Gfa, get_version, fill_nodes, check_numeric_gfafile,
    check_numeric_compact_gfafile};
use gfa_reader::model::{GfaError, Version};
use gfa_reader::records::{Id, Opt};

fn lines(strs: &[&str]) -> Vec<Vec<u8>> {
    strs.iter().map(|s| s.as_bytes().to_vec()).collect()
}

fn digit_mode() -> ParseMode {
    ParseMode { digit_ids: true, store_opt: false, store_overlap: false }
}

fn text_mode() -> ParseMode {
    ParseMode { digit_ids: false, store_opt: false, store_overlap: false }
}

const FIVE_LINES: [&str; 5] = [
    "H\tVN:Z:1.0",
    "S\t1\tACGT",
    "S\t2\tTT",
    "L\t1\t+\t2\t+\t0M",
    "P\tpath1\t1+,2+\t*",
];

#[test]
fn five_line_scenario_digit() {
    let ls = lines(&FIVE_LINES);
    let gfa = Gfa::parse_gfa_file(&ls, digit_mode()).unwrap();
    assert_eq!(gfa.header.version_number, b"1.0".to_vec());
    assert_eq!(gfa.segments.len(), 2);
    assert_eq!(gfa.links.len(), 1);
    assert_eq!(gfa.paths.len(), 1);
    assert_eq!(gfa.get_sequence_by_id(&Id::Num(1)).unwrap(), b"ACGT");
    assert_eq!(gfa.get_sequence_by_id(&Id::Num(2)).unwrap(), b"TT");
    assert!(gfa.is_compact());
    let link = &gfa.links[0];
    assert_eq!(link.from, Id::Num(1));
    assert_eq!(link.to, Id::Num(2));
    assert!(link.from_dir);
    assert!(link.to_dir);
    let path = &gfa.paths[0];
    assert_eq!(path.name, b"path1".to_vec());
    assert_eq!(path.dir, vec![true, true]);
    assert_eq!(path.nodes, vec![Id::Num(1), Id::Num(2)]);
}

#[test]
fn five_line_scenario_text_ids() {
    let ls = lines(&FIVE_LINES);
    let gfa = Gfa::parse_gfa_file(&ls, text_mode()).unwrap();
    assert_eq!(gfa.segments.len(), 2);
    let first = &gfa.segments[0];
    let seq = first.sequence.get_string(gfa.get_sequence().as_slice());
    assert_eq!(seq, b"ACGT");
    // looking the segment up by its own identifier finds it again
    let found = gfa.get_node_by_id(&first.id).unwrap();
    assert_eq!(found.length, 4);
    assert_eq!(gfa.get_sequence_by_id(&first.id).unwrap(), b"ACGT");
}

#[test]
fn segment_lengths_and_versions() {
    // before version 2 the length is the sequence's byte count
    let g1 = Gfa::parse_gfa_file(&lines(&["H\tVN:Z:1.0", "S\t1\tACGTAC"]), digit_mode()).unwrap();
    assert_eq!(g1.segments[0].length, 6);
    // from version 2 on the length field is explicit
    let g2 = Gfa::parse_gfa_file(&lines(&["H\tVN:Z:2.0", "S\t1\tACGTAC\t6"]), digit_mode())
        .unwrap();
    assert_eq!(g2.segments[0].length, 6);
    let bad = Gfa::parse_gfa_file(&lines(&["H\tVN:Z:2.0", "S\t1\tACGTAC"]), digit_mode());
    assert_eq!(bad.unwrap_err(), GfaError::MissingField);
}

#[test]
fn get_version_reads_first_header() {
    assert_eq!(
        get_version(&lines(&["S\t1\tA", "H\tVN:Z:1.1"])).unwrap(),
        Version { major: 1, minor: 1 }
    );
    assert_eq!(get_version(&lines(&["S\t1\tA"])).unwrap(), Version { major: 0, minor: 0 });
    assert_eq!(get_version(&lines(&["H\tVN"])).unwrap_err(), GfaError::BadHeader);
    assert_eq!(get_version(&lines(&["H\tVN:Z:x"])).unwrap_err(), GfaError::BadNumber);
}

#[test]
fn error_variants() {
    assert_eq!(
        Gfa::parse_gfa_file(&lines(&["S\t1"]), digit_mode()).unwrap_err(),
        GfaError::MissingField
    );
    assert_eq!(
        Gfa::parse_gfa_file(&lines(&["S\tx\tAA"]), digit_mode()).unwrap_err(),
        GfaError::BadNumber
    );
    assert_eq!(
        Gfa::parse_gfa_file(&lines(&["L\t1\tx\t2\t+"]), digit_mode()).unwrap_err(),
        GfaError::BadOrientation
    );
    assert_eq!(
        Gfa::parse_gfa_file(&lines(&["W\ts\t1\tc\t0\t5\tx1"]), digit_mode()).unwrap_err(),
        GfaError::BadWalk
    );
    assert_eq!(
        Gfa::parse_gfa_file(&lines(&["H\tVNZ10", "S\t1\tA"]), digit_mode()).unwrap_err(),
        GfaError::BadHeader
    );
    // a non-numeric identifier is fine for a text-identifier graph
    assert!(Gfa::parse_gfa_file(&lines(&["S\tx\tAA"]), text_mode()).is_ok());
    // blank lines and unknown tags are ignored
    let g = Gfa::parse_gfa_file(&lines(&["", "# note", "S\t1\tA"]), digit_mode()).unwrap();
    assert_eq!(g.segments.len(), 1);
}

#[test]
fn jump_and_containment_records() {
    let ls = lines(&[
        "S\t1\tAC",
        "S\t2\tGG",
        "J\t1\t+\t2\t-\t*",
        "J\t1\t-\t2\t+\t42",
        "C\t1\t+\t2\t-\t3\t2M",
    ]);
    let g = Gfa::parse_gfa_file(&ls, digit_mode()).unwrap();
    assert_eq!(g.jump.len(), 2);
    assert_eq!(g.jump[0].distance, -1);
    assert!(!g.jump[0].to_dir);
    assert_eq!(g.jump[1].distance, 42);
    assert_eq!(g.containment.len(), 1);
    assert_eq!(g.containment[0].pos, 3);
    let ov = g.containment[0].overlap.get_string(g.get_sequence().as_slice());
    assert_eq!(ov, b"2M");
}

#[test]
fn walk_records_and_walk_to_path() {
    let ls = lines(&["S\t1\tAC", "S\t2\tGG", "W\tsample\t1\tchr\t0\t5\t>1<2"]);
    let mut g = Gfa::parse_gfa_file(&ls, digit_mode()).unwrap();
    assert_eq!(g.walk.len(), 1);
    assert_eq!(g.walk[0].walk_dir, vec![true, false]);
    assert_eq!(g.walk[0].walk_id, vec![Id::Num(1), Id::Num(2)]);
    assert_eq!(g.walk[0].hap_index, 1);
    g.walk_to_path(b"#");
    assert_eq!(g.walk.len(), 0);
    assert_eq!(g.paths.len(), 1);
    assert_eq!(g.paths[0].name, b"sample#1#chr:0-5".to_vec());
    assert_eq!(g.paths[0].dir, vec![true, false]);
    assert_eq!(g.paths[0].nodes, vec![Id::Num(1), Id::Num(2)]);
}

#[test]
fn compactness_and_lookup_gaps() {
    // a gap: identifiers 1 and 3
    let g = Gfa::parse_gfa_file(&lines(&["S\t1\tA", "S\t3\tC"]), digit_mode()).unwrap();
    assert!(!g.is_compact());
    assert!(g.get_node_by_id(&Id::Num(2)).is_none());
    assert!(g.get_node_by_id(&Id::Num(1)).is_some());
    assert!(g.get_node_digit(&3).is_some());
    assert!(g.get_ind(3).is_some());
    assert!(g.get_ind(4).is_none());
    // a non-1 minimum
    let g2 = Gfa::parse_gfa_file(&lines(&["S\t2\tA", "S\t3\tC"]), digit_mode()).unwrap();
    assert!(!g2.is_compact());
    assert_eq!(g2.get_index_low(), 2);
}

#[test]
fn sparse_numeric_range_falls_back() {
    // a huge identifier range must not allocate a dense table, and lookups
    // still work through binary search
    let g = Gfa::parse_gfa_file(&lines(&["S\t5\tAA", "S\t1000000000\tCC"]), digit_mode()).unwrap();
    assert_eq!(g.index_of_index.len(), 0);
    assert_eq!(g.get_sequence_by_id(&Id::Num(5)).unwrap(), b"AA");
    assert_eq!(g.get_sequence_by_id(&Id::Num(1000000000)).unwrap(), b"CC");
    assert!(g.get_node_by_id(&Id::Num(17)).is_none());
}

#[test]
fn fill_nodes_fills_gaps() {
    let mut g = Gfa::parse_gfa_file(&lines(&["S\t2\tAA", "S\t5\tCC"]), digit_mode()).unwrap();
    fill_nodes(&mut g);
    assert_eq!(g.segments.len(), 4);
    assert_eq!(g.segments[0].id, Id::Num(2));
    assert_eq!(g.segments[1].id, Id::Num(3));
    assert_eq!(g.segments[2].id, Id::Num(4));
    assert_eq!(g.segments[3].id, Id::Num(5));
    assert_eq!(g.get_sequence_by_id(&Id::Num(2)).unwrap(), b"AA");
    assert_eq!(g.get_sequence_by_id(&Id::Num(3)).unwrap(), b"");
    assert_eq!(g.segments[1].length, 0);
    assert_eq!(g.segments[1].opt, Opt::Absent);
    assert_eq!(g.get_sequence_by_id(&Id::Num(5)).unwrap(), b"CC");
}

#[test]
fn check_numeric() {
    assert!(check_numeric_gfafile(&lines(&["S\t1\tA", "S\t22\tC", "L\t1\t+\t22\t+\t0M"])));
    assert!(!check_numeric_gfafile(&lines(&["S\t1\tA", "S\tx\tC"])));
    assert!(check_numeric_gfafile(&lines(&["H\tVN:Z:1.0"])));
}

#[test]
fn check_numeric2() {
    assert_eq!(
        check_numeric_compact_gfafile(&lines(&["S\t2\tA", "S\t1\tC"])),
        (true, true)
    );
    assert_eq!(
        check_numeric_compact_gfafile(&lines(&["S\t1\tA", "S\t3\tC"])),
        (true, false)
    );
    assert_eq!(
        check_numeric_compact_gfafile(&lines(&["S\tzz\tA"])),
        (false, false)
    );
    assert_eq!(check_numeric_compact_gfafile(&lines(&["H\tVN:Z:1.0"])), (true, false));
}

#[test]
fn stored_annotations_and_overlaps() {
    let mode = ParseMode { digit_ids: true, store_opt: true, store_overlap: true };
    let ls = lines(&["S\t1\tAC\tRC:i:4", "S\t2\tGG", "L\t1\t+\t2\t+\t0M"]);
    let g = Gfa::parse_gfa_file(&ls, mode).unwrap();
    match g.segments[0].opt {
        Opt::Present(s) => {
            assert_eq!(s.get_string(g.get_sequence().as_slice()), b"RC:i:4");
        },
        Opt::Absent => panic!("annotation was not stored"),
    }
    // a missing optional field is stored as empty text
    match g.segments[1].opt {
        Opt::Present(s) => {
            assert_eq!(s.get_len(), 0);
        },
        Opt::Absent => panic!("annotation was not stored"),
    }
    match g.links[0].overlap {
        Opt::Present(s) => {
            assert_eq!(s.get_string(g.get_sequence().as_slice()), b"0M");
        },
        Opt::Absent => panic!("overlap was not stored"),
    }
}

#[test]
fn lookup_strategies_agree_with_linear_scan() {
    let ls = lines(&["S\t3\tAAA", "S\t1\tC", "S\t2\tGG"]);
    let g = Gfa::parse_gfa_file(&ls, digit_mode()).unwrap();
    // dense table was built for this compact range
    assert!(g.index_of_index.len() > 0);
    for want in 1..4usize {
        let linear = g.segments.iter().find(|s| s.id == Id::Num(want)).unwrap();
        let dense = g.get_node_digit(&want).unwrap();
        let binary = g.get_ind(want).unwrap();
        let by_id = g.get_node_by_id(&Id::Num(want)).unwrap();
        assert_eq!(linear, dense);
        assert_eq!(linear, binary);
        assert_eq!(linear, by_id);
        assert_eq!(
            g.get_sequence_by_digit(&Id::Num(want)).unwrap(),
            linear.sequence.get_string(g.get_sequence().as_slice())
        );
    }
    assert!(g.get_node_digit(&4).is_none());
    assert!(g.get_node_digit(&0).is_none());
}

#[test]
fn first_header_wins() {
    let ls = lines(&["H\tVN:Z:1.0", "S\t1\tA", "H\tVN:Z:2.0"]);
    let g = Gfa::parse_gfa_file(&ls, digit_mode()).unwrap();
    assert_eq!(g.header.version_number, b"1.0".to_vec());
    assert_eq!(g.header.tag, b"VN".to_vec());
    // the later header line is still validated
    let bad = Gfa::parse_gfa_file(&lines(&["H\tVN:Z:1.0", "H\tbroken"]), digit_mode());
    assert_eq!(bad.unwrap_err(), GfaError::BadHeader);
}

#[test]
fn plus_signed_numerals() {
    // the standard conversions accept one leading plus sign
    let g = Gfa::parse_gfa_file(&lines(&["S\t+7\tACGT", "J\t7\t+\t7\t-\t+42"]), digit_mode())
        .unwrap();
    assert_eq!(g.get_sequence_by_id(&Id::Num(7)).unwrap(), b"ACGT");
    assert_eq!(g.jump[0].distance, 42);
    assert_eq!(
        Gfa::parse_gfa_file(&lines(&["S\t++7\tACGT"]), digit_mode()).unwrap_err(),
        GfaError::BadNumber
    );
}
