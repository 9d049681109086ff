use gfa_reader::ParseMode;
use gfa_reader::graph::Gfa;
use gfa_reader::pansn::Pansn;

fn lines(strs: &[&str]) -> Vec<Vec<u8>> {
    strs.iter().map(|s| s.as_bytes().to_vec()).collect()
}

fn digit_mode() -> ParseMode {
    ParseMode { digit_ids: true, store_opt: false, store_overlap: false }
}

fn grouped_graph() -> Gfa {
    let ls = lines(&[
        "S\t1\tAC",
        "S\t2\tGG",
        "P\ta#1#x\t1+\t*",
        "P\ta#1#y\t2+\t*",
        "P\ta#2#z\t1+,2+\t*",
        "P\tb#1#w\t2-\t*",
    ]);
    Gfa::parse_gfa_file(&ls, digit_mode()).unwrap()
}

#[test]
fn group_by_sample_and_haplotype() {
    let g = grouped_graph();
    let p = Pansn::from_graph(&g.paths, 35);
    assert_eq!(p.genomes.len(), 2);
    assert_eq!(p.genomes[0].name, b"a".to_vec());
    assert_eq!(p.genomes[0].haplotypes.len(), 2);
    assert_eq!(p.genomes[0].haplotypes[0].name, b"1".to_vec());
    assert_eq!(p.genomes[0].haplotypes[0].paths, vec![0, 1]);
    assert_eq!(p.genomes[0].haplotypes[1].name, b"2".to_vec());
    assert_eq!(p.genomes[0].haplotypes[1].paths, vec![2]);
    assert_eq!(p.genomes[1].name, b"b".to_vec());
    assert_eq!(p.genomes[1].haplotypes.len(), 1);
    assert_eq!(p.genomes[1].haplotypes[0].paths, vec![3]);
    let counts = p.number_of_pansn();
    assert_eq!(counts, (2, 3, 4));
}

#[test]
fn fallback_when_names_do_not_follow_convention() {
    let ls = lines(&["S\t1\tAC", "P\tplain\t1+\t*", "P\ta#1#x\t1+\t*"]);
    let g = Gfa::parse_gfa_file(&ls, digit_mode()).unwrap();
    let p = Pansn::from_graph(&g.paths, 35);
    // one name does not split into three parts: every path stands alone
    assert_eq!(p.genomes.len(), 2);
    assert_eq!(p.genomes[0].name, b"plain".to_vec());
    assert_eq!(p.genomes[0].haplotypes.len(), 1);
    assert_eq!(p.genomes[0].haplotypes[0].paths, vec![0]);
    assert_eq!(p.genomes[1].haplotypes[0].paths, vec![1]);
    // a space delimiter always falls back
    let g2 = grouped_graph();
    let p2 = Pansn::from_graph(&g2.paths, 32);
    assert_eq!(p2.genomes.len(), 4);
}

#[test]
fn haplotype_and_genome_listings() {
    let g = grouped_graph();
    let p = Pansn::from_graph(&g.paths, 35);
    let haplos = p.get_haplo_path();
    assert_eq!(haplos.len(), 3);
    assert_eq!(haplos[0].0, b"a#1".to_vec());
    assert_eq!(haplos[0].1, vec![0, 1]);
    assert_eq!(haplos[1].0, b"a#2".to_vec());
    assert_eq!(haplos[1].1, vec![2]);
    assert_eq!(haplos[2].0, b"b#1".to_vec());
    assert_eq!(haplos[2].1, vec![3]);
    let genomes = p.get_path_genome();
    assert_eq!(genomes.len(), 2);
    assert_eq!(genomes[0].0, b"a".to_vec());
    assert_eq!(genomes[0].1, vec![0, 1, 2]);
    assert_eq!(genomes[1].0, b"b".to_vec());
    assert_eq!(genomes[1].1, vec![3]);
    let direct = p.get_paths_direct(&g.paths);
    assert_eq!(direct.len(), 4);
    assert_eq!(direct[0].0, b"a#1#x".to_vec());
    assert_eq!(direct[0].1, vec![0]);
    let empty = Pansn::new();
    assert_eq!(empty.genomes.len(), 0);
}
