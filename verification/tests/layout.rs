use poker_solver::game::{InfoSetId, Player};
use poker_solver::layout::{
    InfoSetCollector, InfoSetDescriptor, InfoSetIndex, RegretTableShape, VectorInfoSetDescriptor,
    VectorTableLayout,
};

fn desc(id: u32, n: usize) -> VectorInfoSetDescriptor {
    VectorInfoSetDescriptor { info_set_id: InfoSetId(id), num_actions: n }
}

#[test]
fn opponent_swaps_players() {
    assert_eq!(Player::Hero.opponent(), Player::Villain);
    assert_eq!(Player::Villain.opponent(), Player::Hero);
    assert_eq!(Player::Hero.opponent().opponent(), Player::Hero);
}

#[test]
fn zero_inits_and_stride_is_correct() {
    let descs = [desc(1, 2), desc(2, 3)];
    let t = VectorTableLayout::new(&descs, 4);
    assert_eq!(t.len(), 2);
    assert_eq!(t.combo_width(), 4);
    assert_eq!(t.max_actions(), 3);
    assert_eq!(t.total(), 2 * 3 * 4);
    for (id, idx) in t.iter_ids() {
        assert!(id.0 == 1 || id.0 == 2);
        assert_eq!(t.index_of(id), Some(idx));
    }
}

#[test]
fn rows_are_contiguous_and_action_sized() {
    let descs = [desc(7, 5)];
    let t = VectorTableLayout::new(&descs, 1326);
    let idx = t.index_of(InfoSetId(7)).unwrap();
    assert_eq!(t.num_actions_at(idx), 5);
    for a in 0..5 {
        assert_eq!(t.row_offset(idx, a), a * 1326);
    }
    assert_eq!(t.total(), 5 * 1326);
}

#[test]
fn num_actions_accessors_reflect_descriptors() {
    let descs = [desc(1, 2), desc(2, 5), desc(3, 1)];
    let t = VectorTableLayout::new(&descs, 1326);
    assert_eq!(t.num_actions_for(InfoSetId(1)), Some(2));
    assert_eq!(t.num_actions_for(InfoSetId(2)), Some(5));
    assert_eq!(t.num_actions_for(InfoSetId(3)), Some(1));
    assert_eq!(t.num_actions_for(InfoSetId(99)), None);
}

#[test]
fn rows_of_distinct_info_sets_do_not_overlap() {
    let descs = [desc(10, 2), desc(20, 3)];
    let t = VectorTableLayout::new(&descs, 8);
    let i0 = t.index_of(InfoSetId(10)).unwrap();
    let i1 = t.index_of(InfoSetId(20)).unwrap();
    assert_eq!((i0, i1), (0, 1));
    assert_eq!(t.row_offset(i0, 1), 8);
    assert_eq!(t.row_offset(i1, 0), 3 * 8);
    assert_eq!(t.row_offset(i1, 2), 3 * 8 + 16);
    assert!(!t.is_empty());
}

#[test]
fn scalar_index_is_dense_and_ordered() {
    let descs = [
        InfoSetDescriptor { info_set_id: InfoSetId(0x30), num_actions: 2 },
        InfoSetDescriptor { info_set_id: InfoSetId(0x10), num_actions: 3 },
        InfoSetDescriptor { info_set_id: InfoSetId(0x20), num_actions: 1 },
    ];
    let ix = InfoSetIndex::new(&descs);
    assert_eq!(ix.len(), 3);
    assert_eq!(ix.max_actions(), 3);
    assert_eq!(ix.index_of(InfoSetId(0x10)), Some(1));
    assert_eq!(ix.index_of(InfoSetId(0x40)), None);
    assert_eq!(ix.num_actions_at(2), 1);
    assert_eq!(
        ix.iter_ids(),
        vec![(InfoSetId(0x30), 0), (InfoSetId(0x10), 1), (InfoSetId(0x20), 2)]
    );
}

#[test]
fn collector_keeps_first_visit_of_each_info_set() {
    let mut c = InfoSetCollector::new();
    c.visit(InfoSetId(5), 2);
    c.visit(InfoSetId(9), 3);
    c.visit(InfoSetId(5), 7);
    c.visit(InfoSetId(1), 1);
    let d = c.into_descriptors();
    assert_eq!(
        d,
        vec![
            InfoSetDescriptor { info_set_id: InfoSetId(5), num_actions: 2 },
            InfoSetDescriptor { info_set_id: InfoSetId(9), num_actions: 3 },
            InfoSetDescriptor { info_set_id: InfoSetId(1), num_actions: 1 },
        ]
    );
    let ix = InfoSetIndex::new(&d);
    assert_eq!(ix.max_actions(), 3);
}

#[test]
fn stride_and_len_reflect_construction() {
    let t = RegretTableShape::new(7, 5);
    assert_eq!(t.len(), 7);
    assert_eq!(t.stride(), 5);
    assert!(!t.is_empty());
    let (lo, hi) = t.row(0);
    assert_eq!(hi - lo, 5);
    let (lo, hi) = t.row(6);
    assert_eq!(hi - lo, 5);
}

#[test]
fn empty_table_reports_empty() {
    let t = RegretTableShape::new(0, 4);
    assert_eq!(t.len(), 0);
    assert!(t.is_empty());
}

#[test]
fn scalar_rows_tile_the_table() {
    let t = RegretTableShape::new(4, 3);
    assert_eq!(t.total(), 12);
    assert_eq!(t.row(0), (0, 3));
    assert_eq!(t.row(2), (6, 9));
    assert_eq!(t.row(3), (9, 12));
}
