use vstd::prelude::*;

verus! {

/// Number of component stores a world may own.
pub const MAX_COMPONENTS: usize = 100;

/// Number of slots in the per-group bounding-volume-hierarchy table.
pub const MAX_GROUP: usize = 10;

pub enum GameState {
    Title,
    Main,
    GameOver,
}

#[derive(Clone, Copy, PartialEq, Eq, PartialOrd, Ord, Debug, Structural)]
pub enum Direction {
    North,
    East,
    South,
    West,
}

/// Role tag of an entity; it also gates which other groups it may contact.
#[derive(Clone, Copy, PartialEq, Eq, PartialOrd, Ord, Debug, Structural)]
pub enum Group {
    System,
    Player,
    Enemy,
    PlayerBullet,
    EnemyBullet,
    Building,
    Item,
    NoGroup,
}

impl Group {
    /// Ordinal of the group: the slot it occupies in the per-group tables.
    pub open spec fn spec_index(self) -> int {
        match self {
            Group::System => 0,
            Group::Player => 1,
            Group::Enemy => 2,
            Group::PlayerBullet => 3,
            Group::EnemyBullet => 4,
            Group::Building => 5,
            Group::Item => 6,
            Group::NoGroup => MAX_GROUP as int,
        }
    }

    pub fn index(&self) -> (r: usize)
        ensures
            r == self.spec_index(),
    {
        match self {
            Group::System => 0,
            Group::Player => 1,
            Group::Enemy => 2,
            Group::PlayerBullet => 3,
            Group::EnemyBullet => 4,
            Group::Building => 5,
            Group::Item => 6,
            Group::NoGroup => MAX_GROUP,
        }
    }

    pub open spec fn spec_is_need_bvh(self) -> bool {
        match self {
            Group::Player => true,
            Group::Enemy => true,
            Group::PlayerBullet => true,
            Group::EnemyBullet => true,
            Group::Building => true,
            Group::Item => true,
            _ => false,
        }
    }

    /// Whether a bounding-volume hierarchy is built for this group each frame.
    pub fn is_need_bvh(&self) -> (r: bool)
        ensures
            r == self.spec_is_need_bvh(),
    {
        match self {
            Group::Player => true,
            Group::Enemy => true,
            Group::PlayerBullet => true,
            Group::EnemyBullet => true,
            Group::Building => true,
            Group::Item => true,
            _ => false,
        }
    }

    pub open spec fn spec_from_index(index: int) -> Group {
        if index == 0 {
            Group::System
        } else if index == 1 {
            Group::Player
        } else if index == 2 {
            Group::Enemy
        } else if index == 3 {
            Group::PlayerBullet
        } else if index == 4 {
            Group::EnemyBullet
        } else if index == 5 {
            Group::Building
        } else if index == 6 {
            Group::Item
        } else {
            Group::NoGroup
        }
    }

    pub fn get_from_index(index: usize) -> (r: Group)
        ensures
            r == Group::spec_from_index(index as int),
    {
        match index {
            0 => Group::System,
            1 => Group::Player,
            2 => Group::Enemy,
            3 => Group::PlayerBullet,
            4 => Group::EnemyBullet,
            5 => Group::Building,
            6 => Group::Item,
            _ => Group::NoGroup,
        }
    }

    /// The fixed policy table: the groups that `self` may contact, listed
    /// from the perspective of the querying entity.
    pub open spec fn spec_possible_contact_groups(self) -> Seq<Group> {
        match self {
            Group::System => seq![
                Group::System,
                Group::Player,
                Group::Enemy,
                Group::PlayerBullet,
                Group::EnemyBullet,
                Group::Building,
                Group::Item,
            ],
            Group::Player => seq![Group::Enemy, Group::EnemyBullet, Group::Building, Group::Item],
            Group::Enemy => seq![Group::PlayerBullet, Group::Player, Group::Building],
            Group::PlayerBullet => seq![Group::Enemy],
            Group::EnemyBullet => seq![Group::Player, Group::Building],
            Group::Building => seq![Group::Player, Group::Enemy, Group::EnemyBullet],
            Group::Item => seq![Group::Player],
            Group::NoGroup => seq![],
        }
    }

    pub fn possible_contact_groups(&self) -> (r: Vec<Group>)
        ensures
            r@ == self.spec_possible_contact_groups(),
    {
        let r = match self {
            Group::System => vec![
                Group::System,
                Group::Player,
                Group::Enemy,
                Group::PlayerBullet,
                Group::EnemyBullet,
                Group::Building,
                Group::Item,
            ],
            Group::Player => vec![Group::Enemy, Group::EnemyBullet, Group::Building, Group::Item],
            Group::Enemy => vec![Group::PlayerBullet, Group::Player, Group::Building],
            Group::PlayerBullet => vec![Group::Enemy],
            Group::EnemyBullet => vec![Group::Player, Group::Building],
            Group::Building => vec![Group::Player, Group::Enemy, Group::EnemyBullet],
            Group::Item => vec![Group::Player],
            Group::NoGroup => Vec::new(),
        };
        proof {
            assert(r@ =~= self.spec_possible_contact_groups());
        }
        r
    }

    /// `a` may contact `b`, consulted from `a`'s side of the table.
    pub open spec fn spec_can_contact(a: Group, b: Group) -> bool {
        a.spec_possible_contact_groups().contains(b)
    }

    pub fn is_possible_contact_by_group(&self, group: Group) -> (r: bool)
        ensures
            r == Group::spec_can_contact(*self, group),
    {
        let possible_contact_groups = self.possible_contact_groups();
        let mut i: usize = 0;
        while i < possible_contact_groups.len()
            invariant
                0 <= i <= possible_contact_groups@.len(),
                possible_contact_groups@ == self.spec_possible_contact_groups(),
                forall|k: int| 0 <= k < i ==> possible_contact_groups@[k] != group,
            decreases possible_contact_groups@.len() - i,
        {
            if possible_contact_groups[i] == group {
                return true;
            }
            i = i + 1;
        }
        false
    }
}

/// The contact rule is directional: it is read from the querying entity's
/// side of the table. The System group may contact the Player group, while
/// the Player group's own table does not list System.
pub proof fn lemma_contact_rule_directional()
    ensures
        Group::spec_can_contact(Group::System, Group::Player),
        !Group::spec_can_contact(Group::Player, Group::System),
{
    assert(Group::spec_possible_contact_groups(Group::System)[1] == Group::Player);
    let s = Group::spec_possible_contact_groups(Group::Player);
    assert forall|i: int| 0 <= i < s.len() implies s[i] != Group::System by {
        assert(s.len() == 4);
    }
}

} // verus!
