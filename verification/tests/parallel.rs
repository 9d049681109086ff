use gfa_reader::ParseMode;
use gfa_reader::graph::Gfa;
use gfa_reader::chunk::{parse_chunks, parse_chunk, merge_one, merge_graphs, index_file,
    pair_with_next, split_chunks};
use gfa_reader::model::Version;
use gfa_reader::records::Id;

fn lines(strs: &[&str]) -> Vec<Vec<u8>> {
    strs.iter().map(|s| s.as_bytes().to_vec()).collect()
}

fn digit_mode() -> ParseMode {
    ParseMode { digit_ids: true, store_opt: false, store_overlap: false }
}

fn text_mode() -> ParseMode {
    ParseMode { digit_ids: false, store_opt: false, store_overlap: false }
}

const FIVE_LINES: [&str; 5] = [
    "H\tVN:Z:1.0",
    "S\t1\tACGT",
    "S\t2\tTT",
    "L\t1\t+\t2\t+\t0M",
    "P\tpath1\t1+,2+\t*",
];

#[test]
fn two_chunk_split_matches_sequential() {
    // force a chunk boundary between the two segment lines
    let chunk1 = lines(&FIVE_LINES[0..2]);
    let chunk2 = lines(&FIVE_LINES[2..5]);
    let version = Version { major: 1, minor: 0 };
    let merged = parse_chunks(&vec![chunk1, chunk2], version, digit_mode()).unwrap();
    let seq = Gfa::parse_gfa_file(&lines(&FIVE_LINES), digit_mode()).unwrap();
    assert_eq!(merged.segments.len(), seq.segments.len());
    assert_eq!(merged.links.len(), seq.links.len());
    assert_eq!(merged.paths.len(), seq.paths.len());
    for s in seq.segments.iter() {
        assert_eq!(
            merged.get_sequence_by_id(&s.id).unwrap(),
            seq.get_sequence_by_id(&s.id).unwrap()
        );
    }
    // the re-based slice of the second chunk still resolves correctly
    assert_eq!(merged.get_sequence_by_id(&Id::Num(2)).unwrap(), b"TT");
    assert!(merged.is_compact());
    // the merged graph keeps the file's (first) header
    assert_eq!(merged.header.version_number, seq.header.version_number);
    assert_eq!(merged.header.version_number, b"1.0".to_vec());
}

#[test]
fn two_chunk_split_matches_sequential_text_ids() {
    let chunk1 = lines(&FIVE_LINES[0..2]);
    let chunk2 = lines(&FIVE_LINES[2..5]);
    let version = Version { major: 1, minor: 0 };
    let merged = parse_chunks(&vec![chunk1, chunk2], version, text_mode()).unwrap();
    let seq = Gfa::parse_gfa_file(&lines(&FIVE_LINES), text_mode()).unwrap();
    assert_eq!(merged.segments.len(), seq.segments.len());
    for (a, b) in merged.segments.iter().zip(seq.segments.iter()) {
        let sa = a.sequence.get_string(merged.get_sequence().as_slice());
        let sb = b.sequence.get_string(seq.get_sequence().as_slice());
        assert_eq!(sa, sb);
        let ia = a.id;
        let na = match ia {
            Id::Text(t) => t.get_string(merged.get_sequence().as_slice()),
            Id::Num(_) => panic!("text graph holds a numeric identifier"),
        };
        let nb = match b.id {
            Id::Text(t) => t.get_string(seq.get_sequence().as_slice()),
            Id::Num(_) => panic!("text graph holds a numeric identifier"),
        };
        assert_eq!(na, nb);
    }
    assert_eq!(merged.paths[0].dir, seq.paths[0].dir);
}

#[test]
fn multi_matches_sequential() {
    let ls = lines(&FIVE_LINES);
    for threads in 1..4 {
        let multi = Gfa::parse_gfa_file_multi(&ls, threads, digit_mode()).unwrap();
        let seq = Gfa::parse_gfa_file(&ls, digit_mode()).unwrap();
        assert_eq!(multi.segments.len(), seq.segments.len());
        assert_eq!(multi.links.len(), seq.links.len());
        assert_eq!(multi.paths.len(), seq.paths.len());
        assert_eq!(multi.walk.len(), seq.walk.len());
        assert_eq!(multi.header.version_number, seq.header.version_number);
        for s in seq.segments.iter() {
            assert_eq!(
                multi.get_sequence_by_id(&s.id).unwrap(),
                seq.get_sequence_by_id(&s.id).unwrap()
            );
            assert_eq!(multi.get_node_by_id(&s.id).unwrap(), seq.get_node_by_id(&s.id).unwrap());
        }
    }
}

#[test]
fn merge_rebases_slices() {
    let version = Version { major: 1, minor: 0 };
    let part1 = parse_chunk(&lines(&["S\t1\tACGT"]), version, digit_mode()).unwrap();
    let part2 = parse_chunk(&lines(&["S\t2\tTTGG"]), version, digit_mode()).unwrap();
    let mut acc = Gfa::new(digit_mode());
    merge_one(&mut acc, part1);
    merge_one(&mut acc, part2);
    // before any sort, both segments resolve against the concatenated arena
    let s2 = acc.segments[1].sequence.get_string(acc.get_sequence().as_slice());
    assert_eq!(s2, b"TTGG");
    let merged = merge_graphs(
        vec![
            parse_chunk(&lines(&["S\t1\tACGT"]), version, digit_mode()).unwrap(),
            parse_chunk(&lines(&["S\t2\tTTGG"]), version, digit_mode()).unwrap(),
        ],
        digit_mode(),
    );
    assert_eq!(merged.segments.len(), 2);
}

#[test]
fn parallel_error_matches_sequential_error() {
    let bad = lines(&["H\tVN:Z:1.0", "S\t1\tAC", "S\tx\tGG"]);
    let seq_err = match Gfa::parse_gfa_file(&bad, digit_mode()) {
        Ok(_) => panic!("a malformed identifier must abort the parse"),
        Err(e) => e,
    };
    let multi_err = match Gfa::parse_gfa_file_multi(&bad, 2, digit_mode()) {
        Ok(_) => panic!("a malformed identifier must abort the parse"),
        Err(e) => e,
    };
    assert_eq!(seq_err, multi_err);
}

#[test]
fn chunk_offsets_are_line_aligned() {
    let ls = lines(&["H\tVN:Z:1.0", "S\t1\tACGT", "S\t2\tTT"]);
    let offsets = index_file(&ls);
    // small files yield one chunk: start of file, end of file
    let total: usize = ls.iter().map(|l| l.len() + 1).sum();
    assert_eq!(offsets, vec![0, total]);
    // every offset is a prefix sum of line lengths plus their newlines
    let mut prefix_sums = vec![0usize];
    let mut acc = 0usize;
    for l in ls.iter() {
        acc += l.len() + 1;
        prefix_sums.push(acc);
    }
    for o in offsets.iter() {
        assert!(prefix_sums.contains(o));
    }
    let ranges = pair_with_next(&offsets);
    assert_eq!(ranges, vec![(0, total)]);
    assert_eq!(pair_with_next(&vec![0usize]), vec![]);
}

#[test]
fn split_chunks_partitions_lines() {
    let ls = lines(&FIVE_LINES);
    let chunks = split_chunks(&ls, 2);
    assert!(chunks.len() <= 2);
    let flat: Vec<Vec<u8>> = chunks.into_iter().flatten().collect();
    assert_eq!(flat, ls);
}

#[test]
fn empty_file_parses_empty() {
    let ls: Vec<Vec<u8>> = Vec::new();
    let g = Gfa::parse_gfa_file(&ls, digit_mode()).unwrap();
    assert_eq!(g.segments.len(), 0);
    assert!(g.get_node_by_id(&Id::Num(1)).is_none());
    assert_eq!(index_file(&ls), vec![0]);
}
