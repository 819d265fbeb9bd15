use algolib::adj_list::{AdjList, AdjListBuilder, LabeledAdjList};
use algolib::dsu::Dsu;
use algolib::two_sat::TwoSat;

#[test]
fn dsu_basic() {
    let mut d = Dsu::new(6);
    assert_eq!(d.len(), 6);
    assert!(d.is_root(3));
    assert_eq!(d.size(3), 1);
    let r = d.unite(0, 1);
    assert!(r.is_united);
    assert_eq!(r.size, 2);
    let r2 = d.unite(1, 2);
    assert!(r2.is_united);
    assert_eq!(d.size(0), 3);
    assert_eq!(d.root(2), d.root(0));
    let again = d.unite(0, 2);
    assert!(!again.is_united);
    let comps = d.comps();
    assert_eq!(comps.len(), 4);
    let total: usize = comps.iter().map(|c| c.size).sum();
    assert_eq!(total, 6);
}

#[test]
fn adjacency_blocks() {
    let mut b = AdjListBuilder::new(4);
    assert_eq!(b.num_vert(), 4);
    b.edge(0, 1);
    b.edge(2, 3);
    b.edge(0, 2);
    b.biedge(1, 3);
    assert_eq!(b.num_edge(), 5);
    let g = b.build();
    assert_eq!(g.num_vert(), 4);
    assert_eq!(g.num_edge(), 5);
    let a0 = g.adj(0);
    assert_eq!(a0.len(), 2);
    assert_eq!(a0.get(0), 1);
    assert_eq!(a0.get(1), 2);
    assert_eq!(g.deg(1), 1);
    let all = g.edges();
    assert_eq!(all.len(), 5);
    assert_eq!(all[0], (0, 1));

    let g2 = AdjList::from_biedges(3, &vec![(0, 1), (1, 2)]);
    assert_eq!(g2.num_edge(), 4);

    let lg = LabeledAdjList::from_edges(3, &vec![(0, 1, 10u32), (0, 2, 20), (1, 2, 30)]);
    assert_eq!(lg.num_vert(), 3);
    assert_eq!(lg.num_edge(), 3);
    let out = lg.outedges(0);
    assert_eq!(out, vec![(1, 10), (2, 20)]);
}

#[test]
fn two_sat_collects() {
    let mut ts = TwoSat::new(3);
    ts.clause(0, true, 1, false);
    ts.clause(1, true, 2, true);
}
