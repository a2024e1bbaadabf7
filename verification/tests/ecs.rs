use quark_sim::ecs::{Coords, Velocity, ECS};

fn at(x: i64, y: i64) -> Coords<i64> {
    Coords { x, y }
}

fn lens(e: &ECS<i64>) -> [usize; 7] {
    [
        e.current.len(),
        e.previous.len(),
        e.velocity.len(),
        e.mass.len(),
        e.charge.len(),
        e.chroma.len(),
        e.string.len(),
    ]
}

#[test]
fn new_store_is_empty() {
    let e: ECS<i64> = ECS::new();
    assert_eq!(e.next_id, 0);
    assert_eq!(lens(&e), [0; 7]);
}

#[test]
fn spawn_hands_out_consecutive_ids() {
    let mut e: ECS<i64> = ECS::new();
    let a = e.spawn(at(1, 2), Some(Velocity { x: 5, y: 0 }), None, Some(2), Some(1), None);
    let b = e.spawn(at(3, 4), None, Some(50), None, None, Some(vec![0]));
    assert_eq!((a, b), (0, 1));
    assert_eq!(e.next_id, 2);
    assert_eq!(lens(&e), [2; 7]);
    assert_eq!(e.current[1].map(|c| (c.x, c.y)), Some((3, 4)));
    assert_eq!(e.previous[1].map(|c| (c.x, c.y)), Some((3, 4)));
    assert_eq!(e.velocity[0].map(|v| (v.x, v.y)), Some((5, 0)));
    assert!(e.velocity[1].is_none());
    assert_eq!(e.mass, vec![None, Some(50)]);
    assert_eq!(e.charge, vec![Some(2), None]);
    assert_eq!(e.chroma, vec![Some(1), None]);
    assert_eq!(e.string, vec![None, Some(vec![0])]);
}

#[test]
fn store_previous_copies_where_both_positions_exist() {
    let mut e: ECS<i64> = ECS::new();
    e.spawn(at(0, 0), None, None, None, None, None);
    e.spawn(at(1, 1), None, None, None, None, None);
    e.spawn(at(2, 2), None, None, None, None, None);
    e.current[0] = Some(at(10, 10));
    e.current[1] = Some(at(11, 11));
    e.previous[1] = None;
    e.current[2] = None;
    e.store_previous();
    assert_eq!(e.previous[0].map(|c| (c.x, c.y)), Some((10, 10)));
    assert!(e.previous[1].is_none());
    assert_eq!(e.previous[2].map(|c| (c.x, c.y)), Some((2, 2)));
    assert!(e.current[2].is_none());
}

#[test]
fn despawn_clears_everything_but_mass() {
    let mut e: ECS<i64> = ECS::new();
    e.spawn(at(0, 0), Some(Velocity { x: 1, y: 1 }), Some(7), Some(1), Some(1), Some(vec![0]));
    e.despawn(0);
    assert!(e.current[0].is_none());
    assert!(e.previous[0].is_none());
    assert!(e.velocity[0].is_none());
    assert_eq!(e.mass[0], Some(7));
    assert!(e.charge[0].is_none());
    assert!(e.chroma[0].is_none());
    assert!(e.string[0].is_none());
    assert_eq!(e.next_id, 1);
}

#[test]
fn attach_appends_or_creates() {
    let mut e: ECS<i64> = ECS::new();
    e.spawn(at(0, 0), None, None, None, None, Some(vec![4]));
    e.spawn(at(0, 0), None, None, None, None, None);
    e.attach(0, 9);
    e.attach(1, 9);
    assert_eq!(e.string, vec![Some(vec![4, 9]), Some(vec![9])]);
}

#[test]
fn snap_string_rewires_both_quarks_and_removes_the_gluon() {
    let mut e: ECS<i64> = ECS::new();
    let q1 = e.spawn(at(0, 0), None, None, Some(1), Some(1), Some(vec![2]));
    let q2 = e.spawn(at(9, 0), None, None, Some(1), Some(1), Some(vec![7, 2]));
    let g = e.spawn(at(4, 0), None, None, None, Some(1), Some(vec![q1, q2]));
    let nq = e.spawn(at(5, 0), None, None, Some(-1), Some(1), Some(vec![q2]));
    let naq = e.spawn(at(3, 0), None, None, Some(2), Some(1), Some(vec![q1]));
    e.snap_string(q1, g, q2, nq, naq);
    assert_eq!(e.string[q1], Some(vec![naq]));
    assert_eq!(e.string[q2], Some(vec![7, nq]));
    assert!(e.string[g].is_none());
    assert!(e.current[g].is_none());
    assert!(e.chroma[g].is_none());
    assert_eq!(e.string[nq], Some(vec![q2]));
    assert_eq!(lens(&e), [5; 7]);
}

#[test]
fn snap_string_appends_missing_links_and_fills_missing_strings() {
    let mut e: ECS<i64> = ECS::new();
    let q1 = e.spawn(at(0, 0), None, None, None, None, Some(vec![8]));
    let q2 = e.spawn(at(0, 0), None, None, None, None, None);
    let g = e.spawn(at(0, 0), None, None, None, None, Some(vec![q1, q2]));
    e.snap_string(q1, g, q2, 30, 40);
    assert_eq!(e.string[q1], Some(vec![8, 40]));
    // a quark without a string is given the antiquark's id
    assert_eq!(e.string[q2], Some(vec![40]));
    assert!(e.string[g].is_none());
}

#[test]
fn store_previous_twice_is_once() {
    let mut e: ECS<i64> = ECS::new();
    e.spawn(at(0, 0), None, None, None, None, None);
    e.spawn(at(1, 1), None, None, None, None, None);
    e.current[0] = Some(at(5, 6));
    e.previous[1] = None;
    e.store_previous();
    let once: Vec<Option<(i64, i64)>> = e.previous.iter().map(|p| p.map(|c| (c.x, c.y))).collect();
    e.store_previous();
    let twice: Vec<Option<(i64, i64)>> = e.previous.iter().map(|p| p.map(|c| (c.x, c.y))).collect();
    assert_eq!(once, twice);
    assert_eq!(once, vec![Some((5, 6)), None]);
}

#[test]
fn snap_partner_finds_far_quark_and_gluon_position() {
    let mut e: ECS<i64> = ECS::new();
    let q1 = e.spawn(at(0, 0), None, None, None, Some(1), None);
    let q2 = e.spawn(at(9, 0), None, None, None, Some(1), None);
    let g = e.spawn(at(4, 5), None, None, None, Some(1), Some(vec![q1, q1, q2, q1]));
    let r = e.snap_partner(q1, g).map(|(q, p)| (q, p.x, p.y));
    assert_eq!(r, Some((q2, 4, 5)));
}

#[test]
fn snap_partner_needs_string_link_and_position() {
    let mut e: ECS<i64> = ECS::new();
    let q1 = e.spawn(at(0, 0), None, None, None, None, None);
    let lone = e.spawn(at(1, 1), None, None, None, None, None);
    let self_only = e.spawn(at(1, 1), None, None, None, None, Some(vec![q1, q1]));
    let gone = e.spawn(at(1, 1), None, None, None, None, Some(vec![5]));
    e.current[gone] = None;
    assert!(e.snap_partner(q1, lone).is_none());
    assert!(e.snap_partner(q1, self_only).is_none());
    assert!(e.snap_partner(q1, gone).is_none());
}

#[test]
fn split_string_spawns_pair_and_rewires() {
    let mut e: ECS<i64> = ECS::new();
    let q1 = e.spawn(at(0, 0), None, None, Some(1), Some(1), Some(vec![2]));
    let q2 = e.spawn(at(9, 0), None, None, Some(1), Some(1), Some(vec![2]));
    let g = e.spawn(at(4, 0), None, None, None, Some(1), Some(vec![q1, q2]));
    let (nq, naq) = e.split_string(
        q1,
        g,
        q2,
        at(6, 2),
        at(2, -2),
        Velocity { x: -3, y: 0 },
        -1,
        2,
        1,
    );
    assert_eq!((nq, naq), (3, 4));
    assert_eq!(e.next_id, 5);
    assert_eq!(lens(&e), [5; 7]);
    assert_eq!(e.string, vec![Some(vec![naq]), Some(vec![nq]), None, Some(vec![q2]), Some(vec![q1])]);
    assert_eq!(e.current[nq].map(|c| (c.x, c.y)), Some((6, 2)));
    assert_eq!(e.previous[naq].map(|c| (c.x, c.y)), Some((2, -2)));
    assert_eq!(e.velocity[naq].map(|v| (v.x, v.y)), Some((-3, 0)));
    assert_eq!(e.charge, vec![Some(1), Some(1), None, Some(-1), Some(2)]);
    assert_eq!(e.chroma, vec![Some(1), Some(1), None, Some(1), Some(1)]);
    assert_eq!(e.mass, vec![None, None, None, None, None]);
    assert!(e.current[g].is_none());
}

#[test]
fn bind_gluon_links_both_ends() {
    let mut e: ECS<i64> = ECS::new();
    let a = e.spawn(at(0, 0), None, None, Some(1), Some(1), None);
    let b = e.spawn(at(2, 2), None, None, Some(1), Some(1), Some(vec![7]));
    let g = e.bind_gluon(a, b, at(1, 1), Velocity { x: 0, y: 0 }, 1);
    assert_eq!(g, 2);
    assert_eq!(e.string, vec![Some(vec![g]), Some(vec![7, g]), Some(vec![a, b])]);
    assert_eq!(e.charge[g], None);
    assert_eq!(e.mass[g], None);
    assert_eq!(e.chroma[g], Some(1));
    assert_eq!(e.current[g].map(|c| (c.x, c.y)), Some((1, 1)));
}

#[test]
fn string_pairs_lists_each_live_link_once_from_lower_id() {
    let mut e: ECS<i64> = ECS::new();
    e.spawn(at(0, 0), None, None, None, None, Some(vec![2, 1, 9, 0]));
    e.spawn(at(0, 0), None, None, None, None, Some(vec![0, 2]));
    e.spawn(at(0, 0), None, None, None, None, Some(vec![0, 1]));
    e.spawn(at(0, 0), None, None, None, None, Some(vec![0]));
    e.spawn(at(0, 0), None, None, None, None, None);
    e.previous[3] = None;
    assert_eq!(e.string_pairs(), vec![(0, 2), (0, 1), (1, 2)]);
    e.previous[2] = None;
    assert_eq!(e.string_pairs(), vec![(0, 1)]);
}
