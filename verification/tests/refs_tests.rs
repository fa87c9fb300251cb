use dither::color::Srgb8;
use dither::refs::{PaletteRefs, RefMap};

fn c(r: u8, g: u8, b: u8) -> Srgb8 {
    Srgb8::new(r, g, b)
}

#[test]
fn ref_map_counts() {
    let mut m = RefMap::new();
    assert_eq!(m.len(), 0);
    let k = c(1, 2, 3).key();
    assert!(!m.contains_key(k));
    m.incr(k);
    m.incr(k);
    assert!(m.contains_key(k));
    assert_eq!(m.count_of(k), 2);
    assert_eq!(m.len(), 1);
    m.decr(k);
    assert_eq!(m.count_of(k), 1);
    assert_eq!(m.len(), 1);
    m.decr(k);
    assert!(!m.contains_key(k));
    assert_eq!(m.len(), 0);
}

#[test]
fn ref_map_colors_are_distinct() {
    let mut m = RefMap::new();
    m.incr(c(0, 0, 0).key());
    m.incr(c(0, 0, 0).key());
    m.incr(c(9, 9, 9).key());
    let colors = m.colors();
    assert_eq!(colors.len(), 2);
    assert!(colors.contains(&c(0, 0, 0)));
    assert!(colors.contains(&c(9, 9, 9)));
}

#[test]
fn ref_map_remove_key_drops_all_references() {
    let mut m = RefMap::new();
    let k = c(7, 7, 7).key();
    m.incr(k);
    m.incr(k);
    m.incr(c(8, 8, 8).key());
    m.remove_key(k);
    assert!(!m.contains_key(k));
    assert_eq!(m.count_of(k), 0);
    assert_eq!(m.len(), 1);
    // Removing an absent key changes nothing.
    m.remove_key(k);
    assert_eq!(m.len(), 1);
}

#[test]
fn ref_map_set_one_overwrites() {
    let mut m = RefMap::new();
    let k = c(7, 7, 7).key();
    m.set_one(k);
    assert_eq!(m.count_of(k), 1);
    m.incr(k);
    m.incr(k);
    m.set_one(k);
    assert_eq!(m.count_of(k), 1);
    assert_eq!(m.len(), 1);
}

#[test]
fn reference_counts_stay_at_four_per_node() {
    // The palette builder's bookkeeping invariant: the counts always sum to
    // four references per live node.
    let mut p = PaletteRefs::new();
    let node1 = [c(0, 0, 0), c(255, 255, 255), c(255, 0, 0), c(255, 255, 0)];
    let node2 = [c(0, 0, 0), c(255, 255, 255), c(255, 255, 0), c(0, 255, 0)];
    assert!(p.add_node(node1));
    assert_eq!(total_count(&p, &[node1, node2]), 4);
    assert!(p.add_node(node2));
    assert_eq!(total_count(&p, &[node1, node2]), 8);
    assert_eq!(p.count_of(c(0, 0, 0)), 2);
    assert_eq!(p.count_of(c(255, 255, 0)), 2);
    assert_eq!(p.count_of(c(255, 0, 0)), 1);
    assert_eq!(p.palette_size(), 5);
    assert!(p.release_node(node1));
    assert_eq!(total_count(&p, &[node1, node2]), 4);
    assert_eq!(p.palette_size(), 4);
    assert!(!p.contains_color(c(255, 0, 0)));
}

fn total_count(p: &PaletteRefs, nodes: &[[Srgb8; 4]]) -> u64 {
    let mut seen: Vec<Srgb8> = Vec::new();
    let mut total = 0;
    for node in nodes {
        for &v in node {
            if !seen.contains(&v) {
                seen.push(v);
                total += p.count_of(v);
            }
        }
    }
    total
}

#[test]
fn release_fails_without_enough_references() {
    let mut p = PaletteRefs::new();
    let node = [c(1, 1, 1), c(2, 2, 2), c(3, 3, 3), c(4, 4, 4)];
    assert!(!p.release_node(node));
    assert!(p.add_node(node));
    let other = [c(1, 1, 1), c(2, 2, 2), c(3, 3, 3), c(9, 9, 9)];
    assert!(!p.release_node(other));
    assert!(p.release_node(node));
    assert_eq!(p.palette_size(), 0);
}

#[test]
fn vertex_move_guard() {
    let mut p = PaletteRefs::new();
    let shared = c(10, 10, 10);
    let node1 = [shared, c(1, 0, 0), c(0, 1, 0), c(0, 0, 1)];
    let node2 = [shared, c(2, 0, 0), c(0, 2, 0), c(0, 0, 2)];
    assert!(p.add_node(node1));
    assert!(p.add_node(node2));
    // `shared` is referenced twice and the target is a new color, so the
    // guard refuses: moving would silently drop the other node's vertex.
    assert!(!p.move_vertex(shared, c(20, 20, 20)));
    assert!(p.contains_color(shared));
    // Moving onto a color already in the palette is allowed.
    assert!(p.move_vertex(shared, c(1, 0, 0)));
    assert_eq!(p.count_of(shared), 1);
    assert_eq!(p.count_of(c(1, 0, 0)), 2);
    // A sole reference may move anywhere; the old color leaves the palette.
    assert!(p.move_vertex(c(0, 0, 1), c(30, 30, 30)));
    assert!(!p.contains_color(c(0, 0, 1)));
    assert!(p.contains_color(c(30, 30, 30)));
    // Moving a color onto itself is refused.
    assert!(!p.move_vertex(c(30, 30, 30), c(30, 30, 30)));
}

#[test]
fn moves_never_grow_the_palette() {
    let mut p = PaletteRefs::new();
    let node = [c(0, 0, 0), c(255, 255, 255), c(255, 0, 0), c(0, 255, 0)];
    assert!(p.add_node(node));
    let before = p.palette_size();
    assert!(p.move_vertex(c(255, 0, 0), c(128, 0, 0)));
    assert!(p.palette_size() <= before);
}
