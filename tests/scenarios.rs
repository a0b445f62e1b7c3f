use door_toggles::loader::{build_adjacency, load_tree, parse_door, parse_room_type, LoadError};
use door_toggles::tree::{Need, RoomType, Vertex};

fn solve(n: usize, edges: &[(usize, usize, char)], rooms: &[(usize, char)]) -> Result<usize, LoadError> {
    let tree = load_tree(n, &edges.to_vec(), &rooms.to_vec())?;
    Ok(tree.min_toggles().unwrap())
}

#[test]
fn open_door_to_programmers() {
    assert_eq!(solve(2, &[(1, 2, 'O')], &[(2, 'P')]), Ok(0));
}

#[test]
fn closed_door_to_managers() {
    assert_eq!(solve(2, &[(1, 2, 'C')], &[(2, 'M')]), Ok(0));
}

#[test]
fn closed_door_to_programmers_flips() {
    assert_eq!(solve(2, &[(1, 2, 'C')], &[(2, 'P')]), Ok(1));
}

#[test]
fn two_leaves_already_satisfied() {
    assert_eq!(
        solve(3, &[(1, 2, 'O'), (1, 3, 'C')], &[(2, 'P'), (3, 'M')]),
        Ok(0)
    );
}

#[test]
fn vertex_out_of_range_is_rejected() {
    assert_eq!(
        solve(3, &[(1, 2, 'O'), (2, 5, 'C')], &[(3, 'P')]),
        Err(LoadError::VertexOutOfRange(5))
    );
    assert_eq!(
        solve(3, &[(1, 2, 'O'), (2, 3, 'C')], &[(5, 'P')]),
        Err(LoadError::VertexOutOfRange(5))
    );
    assert_eq!(
        solve(3, &[(1, 2, 'O'), (0, 3, 'C')], &[(3, 'P')]),
        Err(LoadError::VertexOutOfRange(0))
    );
}

#[test]
fn single_programmers_room_counts_closed_doors_on_path() {
    // 1 -C- 2 -C- 3 -O- 4(P): two closed doors on the path.
    assert_eq!(
        solve(4, &[(1, 2, 'C'), (2, 3, 'C'), (3, 4, 'O')], &[(4, 'P')]),
        Ok(2)
    );
    // A side branch without a room changes nothing.
    assert_eq!(
        solve(5, &[(1, 2, 'C'), (2, 3, 'O'), (2, 5, 'C'), (3, 4, 'C')], &[(4, 'P'), (5, 'E')]),
        Ok(2)
    );
}

#[test]
fn all_empty_rooms_cost_nothing() {
    assert_eq!(
        solve(
            5,
            &[(1, 2, 'C'), (2, 3, 'O'), (2, 4, 'C'), (1, 5, 'O')],
            &[(3, 'E'), (4, 'E'), (5, 'E')]
        ),
        Ok(0)
    );
}

#[test]
fn engine_twice_gives_same_result() {
    let tree = load_tree(
        4,
        &vec![(1, 2, 'C'), (2, 3, 'O'), (2, 4, 'C')],
        &vec![(3, 'M'), (4, 'P')],
    )
    .unwrap();
    let first = tree.changes(true);
    let second = tree.changes(true);
    assert_eq!(first, second);
    assert_eq!(tree.min_toggles(), tree.min_toggles());
}

#[test]
fn swapped_edge_gives_same_tree() {
    let rooms = vec![(3, 'P'), (4, 'M')];
    let a = load_tree(4, &vec![(1, 2, 'O'), (2, 3, 'C'), (2, 4, 'O')], &rooms).unwrap();
    let b = load_tree(4, &vec![(2, 1, 'O'), (3, 2, 'C'), (4, 2, 'O')], &rooms).unwrap();
    assert_eq!(a, b);
    assert_eq!(a.changes(true), b.changes(true));
}

#[test]
fn swapped_edge_gives_same_adjacency() {
    let a = build_adjacency(&vec![(1, 2, true), (2, 3, false)]);
    let b = build_adjacency(&vec![(2, 1, true), (2, 3, false)]);
    assert_eq!(a, b);
    assert_eq!(a.get(&2), Some(&vec![(1, true), (3, false)]));
}

#[test]
fn loaded_tree_shape() {
    let tree = load_tree(3, &vec![(2, 1, 'O'), (1, 3, 'C')], &vec![(2, 'P'), (3, 'M')]).unwrap();
    assert_eq!(
        tree,
        Vertex::Hub(
            1,
            vec![
                (Vertex::Room(2, RoomType::Programmers), true),
                (Vertex::Room(3, RoomType::Managers), false)
            ]
        )
    );
    assert_eq!(tree.node_count(), Some(3));
}

#[test]
fn later_room_declaration_wins() {
    assert_eq!(solve(2, &[(1, 2, 'C')], &[(2, 'M'), (2, 'P')]), Ok(1));
}

#[test]
fn managers_below_inner_hub_flip_to_open() {
    // 1 -O- 2 -O- 3(M): the hub 2 is not the root, so the need turns to open
    // and the open door to 3 has to close.
    assert_eq!(solve(3, &[(1, 2, 'O'), (2, 3, 'O')], &[(3, 'M')]), Ok(1));
}

#[test]
fn closed_need_at_root_costs_nothing() {
    let tree = load_tree(2, &vec![(1, 2, 'O')], &vec![(2, 'M')]).unwrap();
    assert_eq!(tree.changes(true), (Need::NeedClosed, 0));
    assert_eq!(tree.changes(false), (Need::NeedOpen, 1));
}

#[test]
fn open_need_is_sticky_and_charges_both_buckets() {
    // Root children: 2(P) behind a closed door, 3(M) behind an open door.
    let tree = load_tree(3, &vec![(1, 2, 'C'), (1, 3, 'O')], &vec![(2, 'P'), (3, 'M')]).unwrap();
    assert_eq!(tree.changes(true), (Need::NeedOpen, 2));
    // The same children in the other order.
    let tree = load_tree(3, &vec![(1, 3, 'O'), (1, 2, 'C')], &vec![(2, 'P'), (3, 'M')]).unwrap();
    assert_eq!(tree.changes(true), (Need::NeedOpen, 2));
}

#[test]
fn empty_room_keeps_earlier_need() {
    let tree = Vertex::Hub(
        1,
        vec![
            (Vertex::Room(2, RoomType::Managers), false),
            (Vertex::Room(3, RoomType::Empty), true),
        ],
    );
    assert_eq!(tree.changes(true), (Need::NeedClosed, 0));
}

#[test]
fn room_alone() {
    assert_eq!(Vertex::Room(1, RoomType::Programmers).changes(true), (Need::NeedOpen, 0));
    assert_eq!(Vertex::Room(1, RoomType::Managers).changes(false), (Need::NeedClosed, 0));
    assert_eq!(Vertex::Room(1, RoomType::Empty).changes(true), (Need::NoNeed, 0));
}

#[test]
fn bad_characters_are_rejected() {
    assert_eq!(solve(2, &[(1, 2, 'X')], &[(2, 'P')]), Err(LoadError::BadDoorState('X')));
    assert_eq!(solve(2, &[(1, 2, 'O')], &[(2, 'Q')]), Err(LoadError::BadRoomType('Q')));
    assert_eq!(parse_door('O'), Some(true));
    assert_eq!(parse_door('C'), Some(false));
    assert_eq!(parse_room_type('E'), Some(RoomType::Empty));
}

#[test]
fn missing_adjacency_is_reported() {
    // No edges at all: vertex 1 has no neighbours.
    assert_eq!(solve(1, &[], &[]), Err(LoadError::MissingAdjacency(1)));
    // Vertex 3 is reached but is neither a room nor has children.
    assert_eq!(
        solve(3, &[(1, 2, 'O'), (2, 3, 'O')], &[]),
        Err(LoadError::MissingAdjacency(3))
    );
}

#[test]
fn wrong_edge_count_is_rejected() {
    assert_eq!(solve(3, &[(1, 2, 'O')], &[(2, 'P')]), Err(LoadError::EdgeCount(1)));
    assert_eq!(solve(0, &[], &[]), Err(LoadError::EdgeCount(0)));
}

#[test]
fn unreachable_vertex_is_rejected() {
    // Vertex 4 is on no edge; the three edges form a cycle.
    assert_eq!(
        solve(4, &[(1, 2, 'O'), (2, 3, 'O'), (3, 1, 'O')], &[(2, 'P'), (3, 'M')]),
        Err(LoadError::Unreachable(4))
    );
}

#[test]
fn repeated_edge_leaves_a_vertex_unreached() {
    assert_eq!(
        solve(3, &[(1, 2, 'O'), (1, 2, 'O')], &[(2, 'P'), (3, 'M')]),
        Err(LoadError::Unreachable(3))
    );
}

#[test]
fn room_with_children_loads_as_leaf() {
    // Vertex 3 hangs below the room 2 and is not visited.
    let tree = load_tree(3, &vec![(1, 2, 'C'), (2, 3, 'O')], &vec![(2, 'P')]).unwrap();
    assert_eq!(
        tree,
        Vertex::Hub(1, vec![(Vertex::Room(2, RoomType::Programmers), false)])
    );
    assert_eq!(tree.min_toggles(), Some(1));
}
