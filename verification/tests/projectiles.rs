use game::projectiles::{regroup_cells, CellKey};

fn sorted(mut v: Vec<(CellKey, u32)>) -> Vec<(CellKey, u32)> {
    v.sort();
    v
}

fn items(cells: &[(CellKey, Vec<u32>)]) -> Vec<(CellKey, u32)> {
    let mut out = Vec::new();
    for (k, ps) in cells {
        for p in ps {
            out.push((*k, *p));
        }
    }
    sorted(out)
}

#[test]
fn projectiles_that_stay_keep_their_cell_and_order() {
    let mut cells = vec![((0, 0, 0), vec![1u32, 2, 3])];
    let keys = vec![vec![(0, 0, 0), (0, 0, 0), (0, 0, 0)]];
    regroup_cells(&mut cells, &keys);
    assert_eq!(cells, vec![((0, 0, 0), vec![1, 2, 3])]);
}

#[test]
fn projectiles_move_to_an_existing_cell() {
    let mut cells = vec![((0, 0, 0), vec![1u32, 2]), ((1, 0, 0), vec![3u32])];
    let keys = vec![vec![(1, 0, 0), (0, 0, 0)], vec![(1, 0, 0)]];
    regroup_cells(&mut cells, &keys);
    assert_eq!(cells, vec![((0, 0, 0), vec![2]), ((1, 0, 0), vec![3, 1])]);
}

#[test]
fn projectiles_open_a_new_cell_and_emptied_cells_stay() {
    let mut cells = vec![((0, 0, 0), vec![1u32, 2])];
    let keys = vec![vec![(0, -1, 0), (0, -1, 0)]];
    regroup_cells(&mut cells, &keys);
    assert_eq!(cells, vec![((0, 0, 0), vec![]), ((0, -1, 0), vec![1, 2])]);
}

#[test]
fn no_projectile_is_lost_or_doubled() {
    let mut cells = vec![
        ((0, 0, 0), vec![10u32, 11, 12]),
        ((5, 5, 5), vec![20u32]),
        ((-1, 2, 3), vec![30u32, 31]),
    ];
    let keys = vec![
        vec![(5, 5, 5), (0, 0, 0), (7, 7, 7)],
        vec![(-1, 2, 3)],
        vec![(7, 7, 7), (0, 0, 0)],
    ];
    let expected = sorted(vec![
        ((5, 5, 5), 10),
        ((0, 0, 0), 11),
        ((7, 7, 7), 12),
        ((-1, 2, 3), 20),
        ((7, 7, 7), 30),
        ((0, 0, 0), 31),
    ]);
    regroup_cells(&mut cells, &keys);
    assert_eq!(items(&cells), expected);
    assert_eq!(cells[0].0, (0, 0, 0));
    assert_eq!(cells[1].0, (5, 5, 5));
    assert_eq!(cells[2].0, (-1, 2, 3));
    assert_eq!(cells.len(), 4);
    assert_eq!(cells[3], ((7, 7, 7), vec![12, 30]));
}
