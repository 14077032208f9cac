use bouncing_balls::group::Group;

#[test]
fn contact_group_test() {
    let g0 = Group::System;
    let g1 = Group::Player;
    let g2 = Group::Enemy;
    let g3 = Group::PlayerBullet;
    let g4 = Group::Building;
    let g5 = Group::Item;

    let _ = (g0, g1, g4, g5);

    assert!(g2.is_possible_contact_by_group(g3));
}

#[test]
fn contact_rule_is_directional() {
    // the table is consulted from the querying side only
    assert!(Group::System.is_possible_contact_by_group(Group::Player));
    assert!(!Group::Player.is_possible_contact_by_group(Group::System));
}

#[test]
fn contact_table_matches_policy() {
    assert_eq!(
        Group::Player.possible_contact_groups(),
        vec![Group::Enemy, Group::EnemyBullet, Group::Building, Group::Item]
    );
    assert_eq!(Group::PlayerBullet.possible_contact_groups(), vec![Group::Enemy]);
    assert_eq!(
        Group::Enemy.possible_contact_groups(),
        vec![Group::PlayerBullet, Group::Player, Group::Building]
    );
    assert_eq!(Group::NoGroup.possible_contact_groups(), Vec::<Group>::new());
    assert!(!Group::PlayerBullet.is_possible_contact_by_group(Group::Player));
    assert!(Group::EnemyBullet.is_possible_contact_by_group(Group::Building));
}

#[test]
fn group_index_round_trip() {
    let groups = vec![
        Group::System,
        Group::Player,
        Group::Enemy,
        Group::PlayerBullet,
        Group::EnemyBullet,
        Group::Building,
        Group::Item,
    ];
    for g in groups {
        assert_eq!(Group::get_from_index(g.index()), g);
    }
    assert_eq!(Group::get_from_index(7), Group::NoGroup);
    assert!(!Group::System.is_need_bvh());
    assert!(Group::Enemy.is_need_bvh());
    assert!(!Group::NoGroup.is_need_bvh());
}
