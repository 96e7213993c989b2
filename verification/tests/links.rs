use boids::grid::neighbor_cells;
use boids::links::{bucket_indices, chosen_links, link_candidates, MAX_LINKS};

#[test]
fn bucket_indices_groups_positions_in_order() {
    let grid = bucket_indices(&vec![2, 0, 2, 1, 2], 4);
    assert_eq!(grid, vec![vec![1], vec![3], vec![0, 2, 4], vec![]]);
    let empty = bucket_indices(&vec![], 2);
    assert_eq!(empty, vec![Vec::<usize>::new(), Vec::new()]);
}

#[test]
fn link_candidates_keep_later_prey_in_block_order() {
    let grid = vec![vec![0, 5], vec![2, 7, 1], vec![9]];
    assert_eq!(link_candidates(&grid, &vec![1, 0, 2], 1), vec![2, 7, 5, 9]);
    assert_eq!(link_candidates(&grid, &vec![0, 1], 7), Vec::<usize>::new());
    assert_eq!(link_candidates(&grid, &vec![], 0), Vec::<usize>::new());
}

#[test]
fn chosen_links_stop_at_the_cap() {
    let c: Vec<usize> = (10..20).collect();
    let all = vec![true; 10];
    let links = chosen_links(&c, &all);
    assert_eq!(links.len(), MAX_LINKS);
    assert_eq!(links, vec![10, 11, 12, 13, 14]);
    let some = vec![false, true, false, true, false, false, false, false, false, true];
    assert_eq!(chosen_links(&c, &some), vec![11, 13, 19]);
    assert!(chosen_links(&vec![], &vec![]).is_empty());
}

#[test]
fn no_pair_of_prey_is_linked_twice() {
    // Twelve prey spread over a 3 x 3 drawing grid, all within reach.
    let cells: Vec<usize> = (0..12).map(|i| (i * 5) % 9).collect();
    let grid = bucket_indices(&cells, 9);
    let mut pairs = Vec::new();
    for i in 0..cells.len() {
        let (cx, cy) = ((cells[i] % 3) as isize, (cells[i] / 3) as isize);
        let block = neighbor_cells(cx, cy, 3, 3);
        let candidates = link_candidates(&grid, &block, i);
        let links = chosen_links(&candidates, &vec![true; candidates.len()]);
        assert!(links.len() <= MAX_LINKS);
        for j in links {
            assert!(j > i);
            assert!(!pairs.contains(&(i, j)));
            pairs.push((i, j));
        }
    }
    assert!(!pairs.is_empty());
}
