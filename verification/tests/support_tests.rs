use mazeweb::generators::builders::kruskals::UnionFind;
use mazeweb::utils::{choose_random_cell, pick_random_neighbor, Draws};

#[test]
fn draws_scale_words_to_indices() {
    let mut d = Draws::new(vec![0x8000_0000, 0xffff_ffff, 0, 0x4000_0000]);
    assert_eq!(d.remaining(), 4);
    assert_eq!(d.below(10), Some(5));
    assert_eq!(d.below(4), Some(3));
    assert_eq!(d.below(7), Some(0));
    assert_eq!(d.below(0), Some(0));
    assert_eq!(d.remaining(), 0);
    assert_eq!(d.below(10), None);
}

#[test]
fn draws_large_bounds() {
    let mut d = Draws::new(vec![0xffff_ffff, 0x8000_0000]);
    assert_eq!(d.below(u64::MAX), Some(0xffff_fffe_ffff_ffff));
    assert_eq!(d.below(0x2_0000_0000), Some(0x1_0000_0000));
}

#[test]
fn draws_coin() {
    let mut d = Draws::new(vec![0x7fff_ffff, 0x8000_0000]);
    assert_eq!(d.coin(), Some(true));
    assert_eq!(d.coin(), Some(false));
    assert_eq!(d.coin(), None);
}

#[test]
fn random_cell_row_then_column() {
    let mut d = Draws::new(vec![0x4000_0000, 0xc000_0000, 1]);
    assert_eq!(choose_random_cell(4, 6, &mut d), Some((1, 4)));
    assert_eq!(d.remaining(), 1);
    assert_eq!(choose_random_cell(4, 6, &mut d), None);
    assert_eq!(d.remaining(), 0);
}

#[test]
fn random_neighbor_redraws_until_inside() {
    // direction 0 (north) is outside at row 0, direction 1 (south) is inside
    let mut d = Draws::new(vec![0, 0x4000_0000, 0]);
    assert_eq!(pick_random_neighbor(0, 0, 3, 3, &mut d), Some((1, 0)));
    assert_eq!(d.remaining(), 1);
    // west of column 0 is outside too; then the draws run out
    let mut e = Draws::new(vec![0x8000_0000]);
    assert_eq!(pick_random_neighbor(2, 0, 3, 3, &mut e), None);
    assert_eq!(e.remaining(), 0);
    let mut f = Draws::new(vec![0xc000_0000, 0]);
    assert_eq!(pick_random_neighbor(1, 1, 3, 3, &mut f), Some((1, 2)));
    assert_eq!(pick_random_neighbor(1, 1, 3, 3, &mut f), Some((0, 1)));
}

#[test]
fn union_find_starts_with_singletons() {
    let mut uf = UnionFind::new(5);
    for i in 0..5 {
        assert_eq!(uf.find(i), i);
    }
}

#[test]
fn union_find_merges_sets() {
    let mut uf = UnionFind::new(6);
    assert!(uf.union(0, 1));
    assert!(!uf.union(1, 0));
    assert_eq!(uf.find(0), uf.find(1));
    // equal sizes: the second set goes below the first
    assert_eq!(uf.find(1), 0);
    // smaller set below the larger one
    assert!(uf.union(2, 1));
    assert_eq!(uf.find(2), 0);
    assert!(uf.union(3, 4));
    assert!(uf.union(4, 2));
    for i in 0..5 {
        assert_eq!(uf.find(i), 0);
    }
    assert_eq!(uf.find(5), 5);
    assert!(!uf.union(3, 0));
}

#[test]
fn union_find_long_chain() {
    let mut uf = UnionFind::new(100);
    for i in 1..100 {
        assert!(uf.union(i - 1, i));
    }
    let root = uf.find(0);
    for i in 0..100 {
        assert_eq!(uf.find(i), root);
    }
}

#[test]
fn pick_random_neighbor_from_outside_the_grid() {
    // a cell below the grid: north leads to the row above it
    let mut d = Draws::new(vec![0]);
    assert_eq!(pick_random_neighbor(5, 1, 3, 3, &mut d), Some((4, 1)));
    // south and east are never inside from there, so the words run out
    let mut e = Draws::new(vec![0x4000_0000, 0xc000_0000]);
    assert_eq!(pick_random_neighbor(5, 5, 3, 3, &mut e), None);
}
