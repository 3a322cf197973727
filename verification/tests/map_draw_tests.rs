use robo::map_draw::{draw_rect, iPoint, map1_grid, L};

fn occupied(g: &[bool]) -> Vec<(usize, usize)> {
    let mut out = Vec::new();
    for k in 0..g.len() {
        if g[k] {
            out.push((k % L, k / L));
        }
    }
    out
}

#[test]
fn add_sums_componentwise() {
    let a = iPoint { x: 3, y: -4 };
    let b = iPoint { x: 10, y: 7 };
    let c = iPoint::add(&a, &b);
    assert_eq!((c.x, c.y), (13, 3));
}

#[test]
fn draw_rect_marks_cells() {
    let mut g = vec![false; L * L];
    draw_rect(&mut g, iPoint { x: 1, y: 2 }, iPoint { x: 3, y: 1 });
    assert_eq!(occupied(&g), vec![(1, 2), (2, 2), (3, 2)]);
}

#[test]
fn draw_rect_clips_to_grid() {
    let mut g = vec![false; L * L];
    draw_rect(&mut g, iPoint { x: -5, y: -5 }, iPoint { x: 7, y: 6 });
    assert_eq!(occupied(&g), vec![(0, 0), (1, 0)]);
    let mut g = vec![false; L * L];
    draw_rect(&mut g, iPoint { x: 398, y: 399 }, iPoint { x: 10, y: 10 });
    assert_eq!(occupied(&g), vec![(398, 399), (399, 399)]);
}

#[test]
fn draw_rect_outside_grid_changes_nothing() {
    let mut g = vec![false; L * L];
    draw_rect(&mut g, iPoint { x: 500, y: 0 }, iPoint { x: 10, y: 10 });
    draw_rect(&mut g, iPoint { x: 0, y: 0 }, iPoint { x: 0, y: 10 });
    draw_rect(&mut g, iPoint { x: 5, y: 5 }, iPoint { x: -3, y: 10 });
    assert!(occupied(&g).is_empty());
}

#[test]
fn draw_rect_keeps_marked_cells() {
    let mut g = vec![false; L * L];
    g[7] = true;
    draw_rect(&mut g, iPoint { x: 1, y: 0 }, iPoint { x: 2, y: 1 });
    assert_eq!(occupied(&g), vec![(1, 0), (2, 0), (7, 0)]);
}

#[test]
fn draw_rect_twice_is_drawing_once() {
    let mut g1 = vec![false; L * L];
    draw_rect(&mut g1, iPoint { x: 10, y: 20 }, iPoint { x: 5, y: 6 });
    let mut g2 = g1.clone();
    draw_rect(&mut g2, iPoint { x: 10, y: 20 }, iPoint { x: 5, y: 6 });
    assert_eq!(g1, g2);
}

#[test]
fn map1_has_its_walls() {
    let g = map1_grid();
    assert_eq!(g.len(), L * L);
    assert_eq!(g.iter().filter(|c| **c).count(), 45760);
    assert!(g[80 * L + 80]);
    assert!(!g[0]);
    assert!(g[399 * L + 399]);
    assert!(g[368 * L + 180]);
    assert!(!g[367 * L + 180]);
}
